//! The outline of a file: its documents with their directives, bindings, keys, sequence
//! items and tags as a tree of symbols.
use vstd::prelude::*;

use crate::ast::{
    AstFile, DocItemV, DocV, Document, DocumentItem, EntryV, MappingEntry, Node, NodeV, SequenceItem,
};
use crate::navigation::{is_ident_byte, is_ident_byte_exec};
use crate::parser::fallback::{decimal, push_decimal};
use crate::semantic::{as_word, is_import_name, split_directive_value, split_value, trim_range};
use crate::syntax::{FileId, SourceSpan, SourceText};
use crate::text::{
    bytes_to_string, char_boundary, find_byte, find_byte_exec, find_pat, find_pat_exec, lemma_ascii_valid,
    lemma_find_byte_bounds, lemma_find_pat_bounds, lemma_rfind_pat_bounds, lemma_skip_ws_back_bounds,
    lemma_skip_ws_bounds, push_ascii, push_text, rfind_pat, rfind_pat_exec, skip_ws,
    skip_ws_back, trim_end_at, trim_start_at, utf8,
};

verus! {

/// The kind an outline symbol is shown as.
#[derive(Debug, Clone, Copy, PartialEq, Eq, Structural)]
pub enum OutlineKind {
    Module,
    Namespace,
    Variable,
    File,
    Key,
    Array,
    Class,
    Operator,
}

/// A symbol of the outline: its name, a detail line, its kind, the span it covers, the span
/// that names it, and the symbols inside it.
#[derive(Debug)]
pub struct DocumentSymbolNode {
    pub name: String,
    pub detail: Option<String>,
    pub kind: OutlineKind,
    pub span: SourceSpan,
    pub selection_span: SourceSpan,
    pub children: Vec<DocumentSymbolNode>,
}

/// One symbol without its children.
pub struct SymV {
    pub name: Seq<u8>,
    pub detail: Option<Seq<u8>>,
    pub kind: OutlineKind,
    pub span: SourceSpan,
    pub selection: SourceSpan,
}

pub open spec fn opt_bytes(s: Option<String>) -> Option<Seq<u8>> {
    match s {
        Some(t) => Some(utf8(t@)),
        None => None,
    }
}

pub open spec fn flat(n: DocumentSymbolNode) -> SymV {
    SymV { name: utf8(n.name@), detail: opt_bytes(n.detail), kind: n.kind, span: n.span, selection: n.selection_span }
}

pub open spec fn flats(v: Seq<DocumentSymbolNode>) -> Seq<SymV> {
    v.map_values(|n: DocumentSymbolNode| flat(n))
}

/// None of the symbols has children.
pub open spec fn no_children(v: Seq<DocumentSymbolNode>) -> bool {
    forall|k: int| 0 <= k < v.len() ==> (#[trigger] v[k]).children@.len() == 0
}

/// A symbol with the symbols inside it, which hold none.
pub type MidV = (SymV, Seq<SymV>);

pub open spec fn mid(n: DocumentSymbolNode) -> MidV {
    (flat(n), flats(n.children@))
}

pub open spec fn mids(v: Seq<DocumentSymbolNode>) -> Seq<MidV> {
    v.map_values(|n: DocumentSymbolNode| mid(n))
}

pub open spec fn two_levels(v: Seq<DocumentSymbolNode>) -> bool {
    forall|k: int| 0 <= k < v.len() ==> no_children(#[trigger] v[k].children@)
}

// ---------------------------------------------------------------------------
// Where names stand

pub open spec fn lit(s: &str) -> Seq<u8> {
    utf8(s@)
}

/// The span is one of this file's and its text can be read.
pub open spec fn slice_ok(b: Seq<u8>, f: FileId, s: SourceSpan) -> bool {
    &&& s.file_id == f
    &&& s.start <= s.end <= b.len()
    &&& char_boundary(b, s.start as int)
    &&& char_boundary(b, s.end as int)
}

pub open spec fn at(s: SourceSpan, a: int, z: int) -> SourceSpan {
    SourceSpan { file_id: s.file_id, start: a as usize, end: z as usize }
}

pub open spec fn or_span(o: Option<SourceSpan>, s: SourceSpan) -> SourceSpan {
    match o {
        Some(x) => x,
        None => s,
    }
}

/// The first place of `name` in the text of `s`.
pub open spec fn name_span(b: Seq<u8>, f: FileId, s: SourceSpan, name: Seq<u8>) -> Option<SourceSpan> {
    if !slice_ok(b, f, s) {
        None
    } else {
        match find_pat(b, s.start as int, s.end as int, name) {
            Some(p) => Some(at(s, p, p + name.len())),
            None => None,
        }
    }
}

/// The import target of a directive: the quoted text after the name, or the text up to ` as `
/// without its trailing whitespace.
pub open spec fn target_span(b: Seq<u8>, f: FileId, s: SourceSpan, name: Seq<u8>) -> Option<SourceSpan> {
    if !slice_ok(b, f, s) {
        None
    } else {
        match find_pat(b, s.start as int, s.end as int, name) {
            None => None,
            Some(p) => {
                let e = s.end as int;
                let ts = skip_ws(b, p + name.len(), e);
                if ts < e && (b[ts] == 0x22 || b[ts] == 0x27) {
                    match find_byte(b, ts + 1, e, b[ts]) {
                        Some(q) => Some(at(s, ts + 1, q)),
                        None => None,
                    }
                } else {
                    let le = match find_pat(b, ts, e, as_word()) {
                        Some(q) => q,
                        None => e,
                    };
                    Some(at(s, ts, skip_ws_back(b, ts, le)))
                }
            },
        }
    }
}

/// The alias after the last ` as `: placed after as many bytes as the whitespace trimmed
/// from both its ends.
pub open spec fn alias_span(b: Seq<u8>, f: FileId, s: SourceSpan) -> Option<SourceSpan> {
    if !slice_ok(b, f, s) {
        None
    } else {
        match rfind_pat(b, s.start as int, s.end as int, as_word()) {
            None => None,
            Some(p) => {
                let ls = p + 4;
                let e = s.end as int;
                let (a, z) = trim_range(b, ls, e);
                let pre = (e - ls) - (z - a);
                Some(at(s, ls + pre, ls + pre + (z - a)))
            },
        }
    }
}

pub open spec fn ident_end(b: Seq<u8>, i: int, e: int) -> int
    decreases e - i,
{
    if i < e && is_ident_byte(b[i]) {
        ident_end(b, i + 1, e)
    } else {
        i
    }
}

/// The name after the first `!` of a tag.
pub open spec fn tag_span(b: Seq<u8>, f: FileId, s: SourceSpan) -> Option<SourceSpan> {
    if !slice_ok(b, f, s) {
        None
    } else {
        match find_byte(b, s.start as int, s.end as int, 0x21) {
            None => None,
            Some(p) => {
                let z = ident_end(b, p + 1, s.end as int);
                if z > p + 1 {
                    Some(at(s, p + 1, z))
                } else {
                    None
                }
            },
        }
    }
}

/// The metadata name after the first `@name` of an entry.
pub open spec fn metadata_span(b: Seq<u8>, f: FileId, e: EntryV) -> Option<SourceSpan> {
    match e.metadata {
        None => None,
        Some(m) => if !slice_ok(b, f, e.span) {
            None
        } else {
            match find_pat(b, e.span.start as int, e.span.end as int, seq![0x40u8] + m) {
                Some(p) => Some(at(e.span, p + 1, p + 1 + m.len())),
                None => None,
            }
        },
    }
}

// ---------------------------------------------------------------------------
// The symbols

pub open spec fn directive_children(b: Seq<u8>, f: FileId, name: Seq<u8>, span: SourceSpan, value: Option<Seq<u8>>) -> Seq<SymV> {
    match value {
        Some(v) => if is_import_name(name) {
            let (t, a) = split_value(v);
            (match t {
                Some(t) => seq![
                    SymV {
                        name: t,
                        detail: Some(name),
                        kind: OutlineKind::File,
                        span,
                        selection: or_span(target_span(b, f, span, name), span),
                    },
                ],
                None => seq![],
            }) + match a {
                Some(a) => seq![
                    SymV {
                        name: a,
                        detail: Some(name),
                        kind: OutlineKind::Variable,
                        span,
                        selection: or_span(alias_span(b, f, span), span),
                    },
                ],
                None => seq![],
            }
        } else {
            seq![]
        },
        None => seq![],
    }
}

pub open spec fn entry_mid(b: Seq<u8>, f: FileId, e: EntryV) -> MidV {
    (
        SymV { name: e.key, detail: None, kind: OutlineKind::Key, span: e.span, selection: e.key_span },
        match e.metadata {
            Some(m) => seq![
                SymV {
                    name: seq![0x40u8] + m,
                    detail: Some(lit("metadata")),
                    kind: OutlineKind::Class,
                    span: e.span,
                    selection: or_span(metadata_span(b, f, e), e.span),
                },
            ],
            None => seq![],
        },
    )
}

pub open spec fn item_name(i: int) -> Seq<u8> {
    seq![0x5bu8] + decimal(i as nat) + seq![0x5du8]
}

/// The symbols of a node whose values are scalars or errors.
pub open spec fn node_mids(b: Seq<u8>, f: FileId, n: NodeV) -> Seq<MidV> {
    match n {
        NodeV::Mapping { entries, .. } => entries.map_values(|e: EntryV| entry_mid(b, f, e)),
        NodeV::Sequence { items, .. } => Seq::new(
            items.len(),
            |i: int|
                (
                    SymV {
                        name: item_name(i),
                        detail: None,
                        kind: OutlineKind::Array,
                        span: items[i].span,
                        selection: items[i].span,
                    },
                    Seq::<SymV>::empty(),
                ),
        ),
        NodeV::Tag { name, span, .. } => seq![
            (
                SymV {
                    name: seq![0x21u8] + name,
                    detail: None,
                    kind: OutlineKind::Operator,
                    span,
                    selection: or_span(tag_span(b, f, span), span),
                },
                Seq::<SymV>::empty(),
            ),
        ],
        _ => seq![],
    }
}

pub open spec fn item_mids(b: Seq<u8>, f: FileId, i: DocItemV) -> Seq<MidV> {
    match i {
        DocItemV::Directive { name, span, value } => seq![
            (
                SymV {
                    name,
                    detail: value,
                    kind: OutlineKind::Namespace,
                    span,
                    selection: or_span(name_span(b, f, span, name), span),
                },
                directive_children(b, f, name, span, value),
            ),
        ],
        DocItemV::Let { name, span, .. } => seq![
            (
                SymV {
                    name,
                    detail: None,
                    kind: OutlineKind::Variable,
                    span,
                    selection: or_span(name_span(b, f, span, name), span),
                },
                Seq::<SymV>::empty(),
            ),
        ],
        DocItemV::Node(n) => node_mids(b, f, n),
        DocItemV::Comment { .. } => seq![],
    }
}

pub open spec fn items_mids(b: Seq<u8>, f: FileId, items: Seq<DocItemV>, k: int) -> Seq<MidV>
    decreases k,
{
    if k <= 0 {
        seq![]
    } else {
        items_mids(b, f, items, k - 1) + item_mids(b, f, items[k - 1])
    }
}

/// The symbol of document number `number`: it covers its separator line too.
pub open spec fn doc_symbol(d: DocV, number: nat) -> SymV {
    SymV {
        name: lit("document") + decimal(number),
        detail: None,
        kind: OutlineKind::Module,
        span: match d.separator_span {
            Some(x) => SourceSpan {
                file_id: d.span.file_id,
                start: if d.span.start <= x.start { d.span.start } else { x.start },
                end: if d.span.end >= x.end { d.span.end } else { x.end },
            },
            None => d.span,
        },
        selection: or_span(d.separator_span, d.span),
    }
}

// ---------------------------------------------------------------------------
// Building

fn leaf(name: String, detail: Option<String>, kind: OutlineKind, span: SourceSpan, selection_span: SourceSpan) -> (n:
    DocumentSymbolNode)
    ensures
        flat(n) == (SymV { name: utf8(name@), detail: opt_bytes(detail), kind, span, selection: selection_span }),
        n.children@.len() == 0,
{
    DocumentSymbolNode { name, detail, kind, span, selection_span, children: Vec::new() }
}

fn copy_opt(s: &Option<String>) -> (r: Option<String>)
    ensures
        opt_bytes(r) == opt_bytes(*s),
{
    match s {
        Some(t) => Some(t.clone()),
        None => None,
    }
}

fn slice_ok_exec(b: &[u8], f: FileId, s: SourceSpan) -> (r: bool)
    ensures
        r == slice_ok(b@, f, s),
{
    s.file_id == f && s.start <= s.end && s.end <= b.len() && crate::syntax::is_boundary(b, s.start)
        && crate::syntax::is_boundary(b, s.end)
}

fn name_span_exec(b: &[u8], f: FileId, s: SourceSpan, name: &[u8]) -> (r: Option<SourceSpan>)
    ensures
        r == name_span(b@, f, s, name@),
{
    if !slice_ok_exec(b, f, s) {
        return None;
    }
    proof {
        lemma_find_pat_bounds(b@, s.start as int, s.end as int, name@);
    }
    match find_pat_exec(b, s.start, s.end, name) {
        Some(p) => Some(SourceSpan::new(s.file_id, p, p + name.len())),
        None => None,
    }
}

fn target_span_exec(b: &[u8], f: FileId, s: SourceSpan, name: &[u8]) -> (r: Option<SourceSpan>)
    ensures
        r == target_span(b@, f, s, name@),
{
    if !slice_ok_exec(b, f, s) {
        return None;
    }
    proof {
        lemma_find_pat_bounds(b@, s.start as int, s.end as int, name@);
    }
    let p = match find_pat_exec(b, s.start, s.end, name) {
        Some(p) => p,
        None => return None,
    };
    let e = s.end;
    let ts = trim_start_at(b, p + name.len(), e);
    if ts < e && (b[ts] == 0x22 || b[ts] == 0x27) {
        proof {
            lemma_find_byte_bounds(b@, ts + 1, e as int, b@[ts as int]);
        }
        match find_byte_exec(b, ts + 1, e, b[ts]) {
            Some(q) => Some(SourceSpan::new(s.file_id, ts + 1, q)),
            None => None,
        }
    } else {
        let pat: [u8; 4] = [0x20, 0x61, 0x73, 0x20];
        assert(pat@ =~= as_word());
        proof {
            lemma_find_pat_bounds(b@, ts as int, e as int, as_word());
        }
        let le = match find_pat_exec(b, ts, e, pat.as_slice()) {
            Some(q) => q,
            None => e,
        };
        let te = trim_end_at(b, ts, le);
        Some(SourceSpan::new(s.file_id, ts, te))
    }
}

fn alias_span_exec(b: &[u8], f: FileId, s: SourceSpan) -> (r: Option<SourceSpan>)
    ensures
        r == alias_span(b@, f, s),
{
    if !slice_ok_exec(b, f, s) {
        return None;
    }
    let pat: [u8; 4] = [0x20, 0x61, 0x73, 0x20];
    assert(pat@ =~= as_word());
    proof {
        lemma_rfind_pat_bounds(b@, s.start as int, s.end as int, as_word());
    }
    let p = match rfind_pat_exec(b, s.start, s.end, pat.as_slice()) {
        Some(p) => p,
        None => return None,
    };
    let ls = p + 4;
    let e = s.end;
    let a = trim_start_at(b, ls, e);
    let z = trim_end_at(b, a, e);
    let pre = (e - ls) - (z - a);
    Some(SourceSpan::new(s.file_id, ls + pre, ls + pre + (z - a)))
}

fn ident_end_exec(b: &[u8], i: usize, e: usize) -> (r: usize)
    requires
        i <= e <= b@.len(),
    ensures
        r == ident_end(b@, i as int, e as int),
        i <= r <= e,
{
    let mut k = i;
    while k < e && is_ident_byte_exec(b[k])
        invariant
            i <= k <= e <= b@.len(),
            ident_end(b@, k as int, e as int) == ident_end(b@, i as int, e as int),
        decreases e - k,
    {
        k = k + 1;
    }
    k
}

pub(crate) fn tag_span_exec(b: &[u8], f: FileId, s: SourceSpan) -> (r: Option<SourceSpan>)
    ensures
        r == tag_span(b@, f, s),
{
    if !slice_ok_exec(b, f, s) {
        return None;
    }
    proof {
        lemma_find_byte_bounds(b@, s.start as int, s.end as int, 0x21);
    }
    let p = match find_byte_exec(b, s.start, s.end, 0x21) {
        Some(p) => p,
        None => return None,
    };
    let z = ident_end_exec(b, p + 1, s.end);
    if z > p + 1 {
        Some(SourceSpan::new(s.file_id, p + 1, z))
    } else {
        None
    }
}

pub(crate) fn metadata_span_exec(b: &[u8], f: FileId, e: &MappingEntry) -> (r: Option<SourceSpan>)
    ensures
        r == metadata_span(b@, f, e.view_entry()),
{
    let m = match &e.metadata {
        Some(m) => m,
        None => return None,
    };
    if !slice_ok_exec(b, f, e.span) {
        return None;
    }
    let mut needle: Vec<u8> = Vec::new();
    needle.push(0x40);
    let mb = m.as_str().as_bytes();
    let mut k: usize = 0;
    while k < mb.len()
        invariant
            k <= mb@.len(),
            needle@ == seq![0x40u8] + mb@.subrange(0, k as int),
        decreases mb@.len() - k,
    {
        needle.push(mb[k]);
        assert(mb@.subrange(0, k + 1) =~= mb@.subrange(0, k as int).push(mb@[k as int]));
        k = k + 1;
    }
    assert(mb@.subrange(0, mb@.len() as int) =~= mb@);
    proof {
        lemma_find_pat_bounds(b@, e.span.start as int, e.span.end as int, needle@);
    }
    match find_pat_exec(b, e.span.start, e.span.end, needle.as_slice()) {
        Some(p) => Some(SourceSpan::new(e.span.file_id, p + 1, p + 1 + mb.len())),
        None => None,
    }
}

fn is_import_directive(name: &str) -> (r: bool)
    ensures
        r == is_import_name(utf8(name@)),
{
    let b = name.as_bytes();
    crate::text::bytes_eq(b, "@import".as_bytes()) || crate::text::bytes_eq(b, "@include".as_bytes())
        || crate::text::bytes_eq(b, "@use".as_bytes())
}

fn directive_symbol(b: &[u8], f: FileId, d: &crate::ast::Directive) -> (n: DocumentSymbolNode)
    ensures
        item_mids(b@, f, DocumentItem::Directive(*d).view_item()) == seq![mid(n)],
        no_children(n.children@),
{
    let ghost dv = DocumentItem::Directive(*d).view_item();
    let nb = d.name.as_str().as_bytes();
    let mut children: Vec<DocumentSymbolNode> = Vec::new();
    if let Some(v) = &d.value {
        if is_import_directive(d.name.as_str()) {
            let (t, a) = split_directive_value(v.as_str());
            if let Some(t) = t {
                let sel = match target_span_exec(b, f, d.span, nb) {
                    Some(x) => x,
                    None => d.span,
                };
                children.push(leaf(t, Some(d.name.clone()), OutlineKind::File, d.span, sel));
            }
            if let Some(a) = a {
                let sel = match alias_span_exec(b, f, d.span) {
                    Some(x) => x,
                    None => d.span,
                };
                children.push(leaf(a, Some(d.name.clone()), OutlineKind::Variable, d.span, sel));
            }
        }
    }
    let sel = match name_span_exec(b, f, d.span, nb) {
        Some(x) => x,
        None => d.span,
    };
    let n = DocumentSymbolNode {
        name: d.name.clone(),
        detail: copy_opt(&d.value),
        kind: OutlineKind::Namespace,
        span: d.span,
        selection_span: sel,
        children,
    };
    assert(flats(n.children@) =~= directive_children(b@, f, utf8(d.name@), d.span, opt_bytes(d.value)));
    n
}

fn let_symbol(b: &[u8], f: FileId, l: &crate::ast::LetBinding) -> (n: DocumentSymbolNode)
    ensures
        item_mids(b@, f, DocumentItem::Let(*l).view_item()) == seq![mid(n)],
        no_children(n.children@),
{
    let sel = match name_span_exec(b, f, l.span, l.name.as_str().as_bytes()) {
        Some(x) => x,
        None => l.span,
    };
    let n = leaf(l.name.clone(), None, OutlineKind::Variable, l.span, sel);
    assert(flats(n.children@) =~= Seq::<SymV>::empty());
    n
}

fn push_mid(out: &mut Vec<DocumentSymbolNode>, n: DocumentSymbolNode)
    requires
        two_levels(old(out)@),
        no_children(n.children@),
    ensures
        two_levels(final(out)@),
        mids(final(out)@) == mids(old(out)@).push(mid(n)),
{
    let ghost before = out@;
    out.push(n);
    assert(mids(out@) =~= mids(before).push(mid(n)));
    assert forall|k: int| 0 <= k < out@.len() implies no_children(#[trigger] out@[k].children@) by {
        if k < before.len() {
            assert(out@[k] == before[k]);
        }
    }
}

fn entry_symbol(b: &[u8], f: FileId, e: &MappingEntry) -> (n: DocumentSymbolNode)
    ensures
        mid(n) == entry_mid(b@, f, e.view_entry()),
        no_children(n.children@),
{
    let mut children: Vec<DocumentSymbolNode> = Vec::new();
    if let Some(m) = &e.metadata {
        let mut name: Vec<u8> = Vec::new();
        proof {
            lemma_ascii_valid(name@);
        }
        push_ascii(&mut name, 0x40);
        push_text(&mut name, m.as_str());
        let sel = match metadata_span_exec(b, f, e) {
            Some(x) => x,
            None => e.span,
        };
        children.push(leaf(bytes_to_string(name), Some("metadata".to_owned()), OutlineKind::Class, e.span, sel));
    }
    let n = DocumentSymbolNode {
        name: e.key.clone(),
        detail: None,
        kind: OutlineKind::Key,
        span: e.span,
        selection_span: e.key_span,
        children,
    };
    assert(flats(n.children@) =~= entry_mid(b@, f, e.view_entry()).1);
    n
}

fn item_label(i: usize) -> (s: String)
    ensures
        utf8(s@) == item_name(i as int),
{
    let mut out: Vec<u8> = Vec::new();
    proof {
        lemma_ascii_valid(out@);
    }
    push_ascii(&mut out, 0x5b);
    let ghost first = out@;
    push_decimal(&mut out, i);
    proof {
        crate::parser::fallback::lemma_decimal_ascii(i as nat);
        lemma_ascii_valid(decimal(i as nat));
        vstd::utf8::valid_utf8_concat(first, decimal(i as nat));
    }
    push_ascii(&mut out, 0x5d);
    assert(out@ =~= item_name(i as int));
    bytes_to_string(out)
}

fn node_symbols(out: &mut Vec<DocumentSymbolNode>, b: &[u8], f: FileId, node: &Node)
    requires
        two_levels(old(out)@),
    ensures
        two_levels(final(out)@),
        mids(final(out)@) == mids(old(out)@) + node_mids(b@, f, node.view_node()),
{
    let ghost before = mids(out@);
    match node {
        Node::Mapping(m) => {
            let ghost ev = m.entries@.map_values(|e: MappingEntry| e.view_entry());
            let mut k: usize = 0;
            while k < m.entries.len()
                invariant
                    k <= m.entries@.len(),
                    ev == m.entries@.map_values(|e: MappingEntry| e.view_entry()),
                    two_levels(out@),
                    mids(out@) == before + ev.take(k as int).map_values(|e: EntryV| entry_mid(b@, f, e)),
                decreases m.entries@.len() - k,
            {
                let n = entry_symbol(b, f, &m.entries[k]);
                push_mid(out, n);
                assert(ev.take(k + 1).map_values(|e: EntryV| entry_mid(b@, f, e)) =~= ev.take(k as int).map_values(
                    |e: EntryV| entry_mid(b@, f, e),
                ).push(entry_mid(b@, f, ev[k as int])));
                k = k + 1;
            }
            assert(ev.take(m.entries@.len() as int) =~= ev);
        },
        Node::Sequence(q) => {
            let ghost iv = q.items@.map_values(|i: SequenceItem| i.view_item());
            let ghost want = node_mids(b@, f, node.view_node());
            assert(want.len() == q.items@.len());
            assert(forall|i: int|
                0 <= i < want.len() ==> #[trigger] want[i] == (
                    SymV {
                        name: item_name(i),
                        detail: None,
                        kind: OutlineKind::Array,
                        span: iv[i].span,
                        selection: iv[i].span,
                    },
                    Seq::<SymV>::empty(),
                ));
            let mut k: usize = 0;
            while k < q.items.len()
                invariant
                    k <= q.items@.len(),
                    iv == q.items@.map_values(|i: SequenceItem| i.view_item()),
                    want == node_mids(b@, f, node.view_node()),
                    want.len() == q.items@.len(),
                    forall|i: int|
                        0 <= i < want.len() ==> #[trigger] want[i] == (
                            SymV {
                                name: item_name(i),
                                detail: None,
                                kind: OutlineKind::Array,
                                span: iv[i].span,
                                selection: iv[i].span,
                            },
                            Seq::<SymV>::empty(),
                        ),
                    two_levels(out@),
                    mids(out@) == before + want.take(k as int),
                decreases q.items@.len() - k,
            {
                let it = &q.items[k];
                let n = leaf(item_label(k), None, OutlineKind::Array, it.span, it.span);
                assert(flats(n.children@) =~= Seq::<SymV>::empty());
                assert(iv[k as int].span == it.span);
                assert(want[k as int] == mid(n));
                push_mid(out, n);
                assert(want.take(k + 1) =~= want.take(k as int).push(want[k as int]));
                k = k + 1;
            }
            assert(want.take(q.items@.len() as int) =~= want);
        },
        Node::Tag(t) => {
            let mut name: Vec<u8> = Vec::new();
            proof {
                lemma_ascii_valid(name@);
            }
            push_ascii(&mut name, 0x21);
            push_text(&mut name, t.name.as_str());
            let sel = match tag_span_exec(b, f, t.span) {
                Some(x) => x,
                None => t.span,
            };
            let n = leaf(bytes_to_string(name), None, OutlineKind::Operator, t.span, sel);
            assert(flats(n.children@) =~= Seq::<SymV>::empty());
            push_mid(out, n);
        },
        _ => {
            assert(node_mids(b@, f, node.view_node()) =~= Seq::<MidV>::empty());
            assert(mids(out@) =~= before + Seq::<MidV>::empty());
        },
    }
}

fn document_symbol(b: &[u8], f: FileId, d: &Document, number: usize) -> (n: DocumentSymbolNode)
    requires
        d.nodes_nested_leaves(),
    ensures
        flat(n) == doc_symbol(d.view_doc(), number as nat),
        two_levels(n.children@),
        mids(n.children@) == items_mids(b@, f, d.view_doc().items, d.items@.len() as int),
{
    let ghost iv = d.view_doc().items;
    let mut children: Vec<DocumentSymbolNode> = Vec::new();
    let mut k: usize = 0;
    assert(mids(children@) =~= Seq::<MidV>::empty());
    while k < d.items.len()
        invariant
            k <= d.items@.len(),
            iv == d.view_doc().items,
            iv.len() == d.items@.len(),
            two_levels(children@),
            mids(children@) == items_mids(b@, f, iv, k as int),
        decreases d.items@.len() - k,
    {
        assert(iv[k as int] == d.items@[k as int].view_item());
        match &d.items[k] {
            DocumentItem::Directive(x) => {
                let n = directive_symbol(b, f, x);
                push_mid(&mut children, n);
            },
            DocumentItem::Let(x) => {
                let n = let_symbol(b, f, x);
                push_mid(&mut children, n);
            },
            DocumentItem::Node(x) => {
                node_symbols(&mut children, b, f, x);
            },
            DocumentItem::Comment(_) => {},
        }
        k = k + 1;
    }
    let mut name: Vec<u8> = Vec::new();
    proof {
        lemma_ascii_valid(name@);
    }
    push_text(&mut name, "document");
    push_decimal(&mut name, number);
    proof {
        crate::parser::fallback::lemma_decimal_ascii(number as nat);
        lemma_ascii_valid(decimal(number as nat));
        vstd::utf8::valid_utf8_concat(lit("document"), decimal(number as nat));
    }
    let span = match d.separator_span {
        Some(x) => SourceSpan::new(
            d.span.file_id,
            if d.span.start <= x.start { d.span.start } else { x.start },
            if d.span.end >= x.end { d.span.end } else { x.end },
        ),
        None => d.span,
    };
    let selection_span = match d.separator_span {
        Some(x) => x,
        None => d.span,
    };
    DocumentSymbolNode {
        name: bytes_to_string(name),
        detail: None,
        kind: OutlineKind::Module,
        span,
        selection_span,
        children,
    }
}

/// The outline of a parsed file: one symbol per document, named `document1`, `document2`, …,
/// holding a symbol for each directive (with its import target and alias), let binding,
/// mapping key (with its metadata), sequence item and tag.
pub fn build_document_symbols(file: &AstFile, source: &SourceText) -> (r: Vec<DocumentSymbolNode>)
    requires
        forall|i: int| 0 <= i < file.documents@.len() ==> (#[trigger] file.documents@[i]).nodes_nested_leaves(),
    ensures
        r@.len() == file.documents@.len(),
        forall|k: int|
            0 <= k < r@.len() ==> {
                let d = file.documents@[k].view_doc();
                &&& flat(#[trigger] r@[k]) == doc_symbol(d, (k + 1) as nat)
                &&& two_levels(r@[k].children@)
                &&& mids(r@[k].children@) == items_mids(source.bytes(), source.file_id, d.items, d.items.len() as int)
            },
{
    let b = source.text.as_str().as_bytes();
    let f = source.file_id;
    let mut out: Vec<DocumentSymbolNode> = Vec::new();
    let mut k: usize = 0;
    while k < file.documents.len()
        invariant
            k <= file.documents@.len(),
            b@ == source.bytes(),
            f == source.file_id,
            forall|i: int| 0 <= i < file.documents@.len() ==> (#[trigger] file.documents@[i]).nodes_nested_leaves(),
            out@.len() == k,
            forall|j: int|
                0 <= j < k ==> {
                    let d = file.documents@[j].view_doc();
                    &&& flat(#[trigger] out@[j]) == doc_symbol(d, (j + 1) as nat)
                    &&& two_levels(out@[j].children@)
                    &&& mids(out@[j].children@) == items_mids(b@, f, d.items, d.items.len() as int)
                },
        decreases file.documents@.len() - k,
    {
        let n = document_symbol(b, f, &file.documents[k], k + 1);
        out.push(n);
        k = k + 1;
    }
    out
}


/// A document's symbol covers the span that names it: its separator line, or its own span.
pub proof fn lemma_document_symbol_covers_selection(d: DocV, number: nat)
    ensures
        doc_symbol(d, number).span.start <= doc_symbol(d, number).selection.start,
        doc_symbol(d, number).selection.end <= doc_symbol(d, number).span.end,
{
}

/// The target and alias symbols of an import directive lie inside the directive.
pub proof fn lemma_directive_children_inside(b: Seq<u8>, f: FileId, name: Seq<u8>, span: SourceSpan, value: Option<Seq<u8>>)
    requires
        span.start <= span.end,
    ensures
        forall|k: int| 0 <= k < directive_children(b, f, name, span, value).len() ==> {
            let c = #[trigger] directive_children(b, f, name, span, value)[k];
            span.start <= c.selection.start <= c.selection.end <= span.end
        },
{
    if slice_ok(b, f, span) {
        lemma_find_pat_bounds(b, span.start as int, span.end as int, name);
        if let Some(p) = find_pat(b, span.start as int, span.end as int, name) {
            let e = span.end as int;
            lemma_skip_ws_bounds(b, p + name.len(), e);
            let ts = skip_ws(b, p + name.len(), e);
            if ts < e && (b[ts] == 0x22 || b[ts] == 0x27) {
                lemma_find_byte_bounds(b, ts + 1, e, b[ts]);
            } else {
                lemma_find_pat_bounds(b, ts, e, as_word());
                let le = match find_pat(b, ts, e, as_word()) {
                    Some(q) => q,
                    None => e,
                };
                lemma_skip_ws_back_bounds(b, ts, le);
            }
        }
        lemma_rfind_pat_bounds(b, span.start as int, span.end as int, as_word());
        if let Some(p) = rfind_pat(b, span.start as int, span.end as int, as_word()) {
            lemma_skip_ws_bounds(b, p + 4, span.end as int);
            lemma_skip_ws_back_bounds(b, skip_ws(b, p + 4, span.end as int), span.end as int);
        }
    }
}

} // verus!
