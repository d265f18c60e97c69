//! What "go to implementation" looks up at an offset: the import target of a directive, or
//! the dotted identifier path of a `${...}` reference, in document order. Resolving them
//! against the workspace's files is left to the server.
use vstd::prelude::*;
use vstd::utf8::valid_utf8;

use crate::ast::{
    opt_leaf, Directive, DocItemV, DocV, Document, DocumentItem, EntryV, ItemV, LeafV, LetBinding, Mapping,
    Node, NodeV, ScalarKind, Sequence,
};
use crate::code_actions::common::source_slice;
use crate::syntax::{FileId, SourceSpan, SourceText};
use crate::text::{
    bytes_to_string, char_boundary, find_pat, find_pat_exec, lemma_find_pat_bounds, lemma_rfind_byte_bounds,
    lemma_rfind_pat_bounds, lemma_skip_ws_back_bounds, lemma_skip_ws_bounds, lemma_str_valid,
    rfind_byte, rfind_byte_exec, rfind_pat, rfind_pat_exec, skip_ws, skip_ws_back, str_eq, trim_end_at,
    trim_start_at, utf8,
};

verus! {

broadcast use vstd::utf8::valid_utf8_concat;

/// A dotted path of identifiers, such as `shared.net.port`.
#[derive(Debug, Clone, PartialEq, Eq)]
pub struct IdentifierPath {
    pub segments: Vec<String>,
}

impl IdentifierPath {
    pub open spec fn view_path(&self) -> Seq<Seq<u8>> {
        self.segments@.map_values(|s: String| utf8(s@))
    }
}

/// Letters, digits, `_` and `-`.
pub open spec fn is_ident_byte(c: u8) -> bool {
    (0x30 <= c <= 0x39) || (0x41 <= c <= 0x5a) || (0x61 <= c <= 0x7a) || c == 0x5f || c == 0x2d
}

pub open spec fn is_path_byte(c: u8) -> bool {
    is_ident_byte(c) || c == 0x2e
}

/// Where the run of path bytes that ends at `i` starts.
pub open spec fn path_start(t: Seq<u8>, i: int) -> int
    decreases i,
{
    if i > 0 && i <= t.len() && is_path_byte(t[i - 1]) {
        path_start(t, i - 1)
    } else {
        i
    }
}

/// Where the run of path bytes that starts at `i` ends.
pub open spec fn path_end(t: Seq<u8>, i: int) -> int
    decreases t.len() - i,
{
    if 0 <= i < t.len() && is_path_byte(t[i]) {
        path_end(t, i + 1)
    } else {
        i
    }
}

/// The non-empty pieces of `b` between dots.
pub open spec fn dot_pieces(b: Seq<u8>) -> Seq<Seq<u8>>
    decreases b.len(),
{
    match rfind_byte(b, 0, b.len() as int, 0x2e) {
        None => if b.len() == 0 {
            seq![]
        } else {
            seq![b]
        },
        Some(p) => {
            proof {
                lemma_rfind_byte_bounds(b, 0, b.len() as int, 0x2e);
            }
            let last = if p + 1 < b.len() {
                seq![b.subrange(p + 1, b.len() as int)]
            } else {
                seq![]
            };
            dot_pieces(b.subrange(0, p)) + last
        },
    }
}

/// The identifier path under `offset` inside a span of the source, with its own span.
pub open spec fn ident_path(norm: Seq<u8>, file_id: FileId, span: SourceSpan, offset: int) -> Option<
    (SourceSpan, Seq<Seq<u8>>),
> {
    match source_slice(norm, file_id, span) {
        None => None,
        Some(t) => {
            let rel = offset - span.start;
            if rel < 0 || rel >= t.len() || !is_ident_byte(t[rel]) {
                None
            } else {
                let s = path_start(t, rel);
                let e = path_end(t, rel);
                let pieces = dot_pieces(t.subrange(s, e));
                if pieces.len() == 0 {
                    None
                } else {
                    Some(
                        (
                            SourceSpan {
                                file_id: span.file_id,
                                start: (span.start + s) as usize,
                                end: (span.start + e) as usize,
                            },
                            pieces,
                        ),
                    )
                }
            }
        },
    }
}

pub open spec fn contains(span: SourceSpan, offset: int) -> bool {
    span.start <= offset < span.end
}

pub(crate) proof fn lemma_path_start(t: Seq<u8>, i: int)
    requires
        0 <= i <= t.len(),
    ensures
        0 <= path_start(t, i) <= i,
        forall|j: int| path_start(t, i) <= j < i ==> is_path_byte(t[j]),
    decreases i,
{
    if i > 0 && is_path_byte(t[i - 1]) {
        lemma_path_start(t, i - 1);
    }
}

pub(crate) proof fn lemma_path_end(t: Seq<u8>, i: int)
    requires
        0 <= i <= t.len(),
    ensures
        i <= path_end(t, i) <= t.len(),
        forall|j: int| i <= j < path_end(t, i) ==> is_path_byte(t[j]),
    decreases t.len() - i,
{
    if i < t.len() && is_path_byte(t[i]) {
        lemma_path_end(t, i + 1);
    }
}

pub(crate) fn is_ident_byte_exec(c: u8) -> (r: bool)
    ensures
        r == is_ident_byte(c),
{
    (0x30 <= c && c <= 0x39) || (0x41 <= c && c <= 0x5a) || (0x61 <= c && c <= 0x7a) || c == 0x5f
        || c == 0x2d
}

fn is_path_byte_exec(c: u8) -> (r: bool)
    ensures
        r == is_path_byte(c),
{
    is_ident_byte_exec(c) || c == 0x2e
}

proof fn lemma_ascii_piece_valid(b: Seq<u8>)
    requires
        forall|j: int| 0 <= j < b.len() ==> is_path_byte(#[trigger] b[j]),
    ensures
        valid_utf8(b),
{
    assert forall|j: int| 0 <= j < b.len() implies #[trigger] crate::text::is_ascii_byte(b[j]) by {
        assert(is_path_byte(b[j]));
    }
    crate::text::lemma_ascii_valid(b);
}

/// The pieces of path bytes between dots.
fn dot_pieces_exec(b: &[u8], lo: usize, hi: usize) -> (pieces: Vec<String>)
    requires
        valid_utf8(b@),
        lo <= hi <= b@.len(),
        forall|j: int| lo <= j < hi ==> is_path_byte(#[trigger] b@[j]),
    ensures
        pieces@.map_values(|s: String| utf8(s@)) == dot_pieces(b@.subrange(lo as int, hi as int)),
    decreases hi - lo,
{
    let ghost t = b@.subrange(lo as int, hi as int);
    proof {
        lemma_rfind_byte_bounds(b@, lo as int, hi as int, 0x2e);
        lemma_rfind_shift(b@, lo as int, hi as int);
    }
    match rfind_byte_exec(b, lo, hi, 0x2e) {
        None => {
            let mut out: Vec<String> = Vec::new();
            if hi > lo {
                proof {
                    assert(is_path_byte(b@[lo as int]));
                    assert(is_path_byte(b@[hi - 1]));
                    crate::text::lemma_boundary_after_ascii(b@, hi - 1);
                }
                out.push(crate::text::substring(b, lo, hi));
            }
            proof {
                assert(out@.map_values(|s: String| utf8(s@)) =~= dot_pieces(t));
            }
            out
        },
        Some(p) => {
            let mut out = dot_pieces_exec(b, lo, p);
            let ghost first = out@;
            proof {
                assert(t.subrange(0, p - lo) =~= b@.subrange(lo as int, p as int));
            }
            if p + 1 < hi {
                proof {
                    assert(is_path_byte(b@[p + 1]));
                    assert(is_path_byte(b@[hi - 1]));
                    crate::text::lemma_boundary_after_ascii(b@, hi - 1);
                    assert(t.subrange(p - lo + 1, t.len() as int) =~= b@.subrange(p + 1, hi as int));
                }
                out.push(crate::text::substring(b, p + 1, hi));
            }
            proof {
                assert(out@.map_values(|s: String| utf8(s@)) =~= dot_pieces(t));
            }
            out
        },
    }
}

proof fn lemma_rfind_shift(b: Seq<u8>, lo: int, hi: int)
    requires
        0 <= lo <= hi <= b.len(),
    ensures
        match rfind_byte(b, lo, hi, 0x2e) {
            Some(p) => rfind_byte(b.subrange(lo, hi), 0, hi - lo, 0x2e) == Some(p - lo),
            None => rfind_byte(b.subrange(lo, hi), 0, hi - lo, 0x2e) is None,
        },
    decreases hi - lo,
{
    if lo < hi && b[hi - 1] != 0x2e {
        lemma_rfind_shift(b, lo, hi - 1);
        assert(b.subrange(lo, hi - 1) =~= b.subrange(lo, hi).subrange(0, hi - 1 - lo));
        lemma_rfind_prefix(b.subrange(lo, hi), hi - 1 - lo);
    }
}

proof fn lemma_rfind_prefix(t: Seq<u8>, k: int)
    requires
        0 <= k < t.len(),
        t[k] != 0x2e,
        k + 1 == t.len(),
    ensures
        rfind_byte(t, 0, t.len() as int, 0x2e) == rfind_byte(t.subrange(0, k), 0, k, 0x2e),
{
    lemma_rfind_same(t, t.subrange(0, k), k);
}

/// Searching backwards from `k` sees the same bytes in a sequence and in its prefix.
proof fn lemma_rfind_same(t: Seq<u8>, u: Seq<u8>, k: int)
    requires
        0 <= k <= u.len(),
        k <= t.len(),
        forall|j: int| 0 <= j < k ==> t[j] == u[j],
    ensures
        rfind_byte(t, 0, k, 0x2e) == rfind_byte(u, 0, k, 0x2e),
    decreases k,
{
    if k > 0 {
        lemma_rfind_same(t, u, k - 1);
    }
}

/// The identifier path under `offset` inside `span`.
pub fn identifier_path_at_span(span: SourceSpan, offset: usize, source: &SourceText) -> (r: Option<
    (SourceSpan, IdentifierPath),
>)
    ensures
        match ident_path(source.bytes(), source.file_id, span, offset as int) {
            None => r is None,
            Some((s, p)) => r matches Some((rs, rp)) && rs == s && rp.view_path() == p,
        },
{
    let text = match source.slice(span) {
        Some(t) => t,
        None => {
            return None;
        },
    };
    let t = text.as_bytes();
    proof {
        lemma_str_valid(text@);
    }
    if offset < span.start {
        return None;
    }
    let relative = offset - span.start;
    if relative >= t.len() || !is_ident_byte_exec(t[relative]) {
        return None;
    }
    let mut start = relative;
    while start > 0 && is_path_byte_exec(t[start - 1])
        invariant
            start <= relative < t@.len(),
            path_start(t@, start as int) == path_start(t@, relative as int),
        decreases start,
    {
        start = start - 1;
    }
    let mut end = relative;
    while end < t.len() && is_path_byte_exec(t[end])
        invariant
            relative <= end <= t@.len(),
            path_end(t@, end as int) == path_end(t@, relative as int),
        decreases t@.len() - end,
    {
        end = end + 1;
    }
    proof {
        lemma_path_start(t@, relative as int);
        lemma_path_end(t@, relative as int);
        assert(start as int == path_start(t@, relative as int));
        assert(end as int == path_end(t@, relative as int));
        assert forall|j: int| start <= j < end implies is_path_byte(#[trigger] t@[j]) by {
            if j >= relative {
            } else {
            }
        }
    }
    let segments = dot_pieces_exec(t, start, end);
    if segments.len() == 0 {
        return None;
    }
    proof {
        assert(span.start + end <= span.end);
    }
    Some((SourceSpan::new(span.file_id, span.start + start, span.start + end), IdentifierPath { segments }))
}

// ---------------------------------------------------------------------------
// References held by nodes
/// The identifier path under the offset in a `${...}` scalar that a node holds.
pub open spec fn leaf_refs(l: Option<LeafV>, norm: Seq<u8>, file_id: FileId, offset: int) -> Seq<Seq<Seq<u8>>> {
    match l {
        Some(LeafV::Scalar { kind, span, .. }) => if kind == ScalarKind::LuaExpression {
            match ident_path(norm, file_id, span, offset) {
                Some((_, p)) => seq![p],
                None => seq![],
            }
        } else {
            seq![]
        },
        _ => seq![],
    }
}

pub open spec fn entries_refs(es: Seq<EntryV>, norm: Seq<u8>, file_id: FileId, offset: int, k: int) -> Seq<Seq<Seq<u8>>>
    decreases k,
{
    if k <= 0 {
        seq![]
    } else {
        entries_refs(es, norm, file_id, offset, k - 1) + leaf_refs(es[k - 1].value, norm, file_id, offset)
    }
}

pub open spec fn items_refs(items: Seq<ItemV>, norm: Seq<u8>, file_id: FileId, offset: int, k: int) -> Seq<Seq<Seq<u8>>>
    decreases k,
{
    if k <= 0 {
        seq![]
    } else {
        items_refs(items, norm, file_id, offset, k - 1) + leaf_refs(items[k - 1].value, norm, file_id, offset)
    }
}

/// The references under the offset in a node, in document order.
pub open spec fn node_refs(n: NodeV, norm: Seq<u8>, file_id: FileId, offset: int) -> Seq<Seq<Seq<u8>>> {
    match n {
        NodeV::Mapping { entries, .. } => entries_refs(entries, norm, file_id, offset, entries.len() as int),
        NodeV::Sequence { items, .. } => items_refs(items, norm, file_id, offset, items.len() as int),
        NodeV::Leaf(l) => leaf_refs(Some(l), norm, file_id, offset),
        NodeV::Tag { value, .. } => leaf_refs(value, norm, file_id, offset),
        _ => seq![],
    }
}

pub open spec fn paths_view(s: Seq<IdentifierPath>) -> Seq<Seq<Seq<u8>>> {
    s.map_values(|p: IdentifierPath| p.view_path())
}

fn append_paths(out: &mut Vec<IdentifierPath>, more: Vec<IdentifierPath>)
    ensures
        paths_view(final(out)@) == paths_view(old(out)@) + paths_view(more@),
{
    let mut more = more;
    let ghost before = out@;
    let ghost all = more@;
    out.append(&mut more);
    proof {
        assert(out@ =~= before + all);
        assert(paths_view(out@) =~= paths_view(before) + paths_view(all));
    }
}

/// The identifier paths under the offset in the `${...}` scalars of a node, in document
/// order; "go to implementation" resolves them one after the other.
pub fn node_implementation_navigation(node: &Node, offset: usize, source: &SourceText) -> (paths: Vec<IdentifierPath>)
    requires
        node.nested_leaves(),
    ensures
        paths_view(paths@) == node_refs(node.view_node(), source.bytes(), source.file_id, offset as int),
    decreases node,
{
    let ghost norm = source.bytes();
    let ghost fid = source.file_id;
    let mut out: Vec<IdentifierPath> = Vec::new();
    match node {
        Node::Mapping(mapping) => {
            let ghost ev = mapping.entries@.map_values(|e: crate::ast::MappingEntry| e.view_entry());
            let n = mapping.entries.len();
            let mut i: usize = 0;
            while i < n
                invariant
                    i <= n,
                    n == mapping.entries@.len(),
                    node.nested_leaves(),
                    *node == Node::Mapping(*mapping),
                    ev == mapping.entries@.map_values(|e: crate::ast::MappingEntry| e.view_entry()),
                    norm == source.bytes(),
                    fid == source.file_id,
                    paths_view(out@) =~= entries_refs(ev, norm, fid, offset as int, i as int),
                decreases n - i,
            {
                let entry = &mapping.entries[i];
                assert(crate::ast::opt_is_leaf(mapping.entries@[i as int].value));
                if let Some(value) = &entry.value {
                    let found = node_implementation_navigation(value, offset, source);
                    append_paths(&mut out, found);
                }
                proof {
                    assert(ev[i as int] == entry.view_entry());
                }
                i = i + 1;
            }
            proof {
                assert(paths_view(out@) =~= node_refs(node.view_node(), norm, fid, offset as int));
            }
        },
        Node::Sequence(sequence) => {
            let ghost iv = sequence.items@.map_values(|x: crate::ast::SequenceItem| x.view_item());
            let n = sequence.items.len();
            let mut i: usize = 0;
            while i < n
                invariant
                    i <= n,
                    n == sequence.items@.len(),
                    node.nested_leaves(),
                    *node == Node::Sequence(*sequence),
                    iv == sequence.items@.map_values(|x: crate::ast::SequenceItem| x.view_item()),
                    norm == source.bytes(),
                    fid == source.file_id,
                    paths_view(out@) =~= items_refs(iv, norm, fid, offset as int, i as int),
                decreases n - i,
            {
                let item = &sequence.items[i];
                assert(crate::ast::opt_is_leaf(sequence.items@[i as int].value));
                if let Some(value) = &item.value {
                    let found = node_implementation_navigation(value, offset, source);
                    append_paths(&mut out, found);
                }
                proof {
                    assert(iv[i as int] == item.view_item());
                }
                i = i + 1;
            }
            proof {
                assert(paths_view(out@) =~= node_refs(node.view_node(), norm, fid, offset as int));
            }
        },
        Node::Scalar(scalar) => {
            if scalar.kind == ScalarKind::LuaExpression {
                if let Some((_, path)) = identifier_path_at_span(scalar.span, offset, source) {
                    out.push(path);
                }
            }
            proof {
                assert(paths_view(out@) =~= node_refs(node.view_node(), norm, fid, offset as int));
            }
        },
        Node::Tag(tag) => {
            if let Some(value) = &tag.value {
                let found = node_implementation_navigation(value, offset, source);
                append_paths(&mut out, found);
            }
            proof {
                assert(paths_view(out@) =~= node_refs(node.view_node(), norm, fid, offset as int));
            }
        },
        _ => {
            proof {
                assert(paths_view(out@) =~= node_refs(node.view_node(), norm, fid, offset as int));
            }
        },
    }
    out
}

// ---------------------------------------------------------------------------
// Directives and let bindings
pub open spec fn lit(s: &str) -> Seq<u8> {
    utf8(s@)
}

pub open spec fn import_like(name: Seq<u8>) -> bool {
    name == lit("@import") || name == lit("@include") || name == lit("@use")
}

/// The text before the first ` as ` of a value, or all of it.
pub open spec fn before_as(v: Seq<u8>) -> Seq<u8> {
    match find_pat(v, 0, v.len() as int, crate::semantic::as_word()) {
        Some(p) => v.subrange(0, p),
        None => v,
    }
}

/// Where a directive's target (its value up to ` as `) stands in its line.
pub open spec fn target_span(norm: Seq<u8>, file_id: FileId, span: SourceSpan, value: Option<Seq<u8>>) -> Option<
    SourceSpan,
> {
    match (source_slice(norm, file_id, span), value) {
        (Some(line), Some(v)) => {
            let target = before_as(v);
            match find_pat(line, 0, line.len() as int, target) {
                Some(p) => Some(
                    SourceSpan {
                        file_id: span.file_id,
                        start: (span.start + p) as usize,
                        end: (span.start + p + target.len()) as usize,
                    },
                ),
                None => None,
            }
        },
        _ => None,
    }
}

/// Where the alias after the last ` as ` of an `@import` or `@use` stands in its line (its
/// last occurrence).
pub open spec fn alias_span(norm: Seq<u8>, file_id: FileId, name: Seq<u8>, span: SourceSpan, value: Option<Seq<u8>>) -> Option<
    SourceSpan,
> {
    if !(name == lit("@import") || name == lit("@use")) {
        None
    } else {
        match (source_slice(norm, file_id, span), value) {
            (Some(line), Some(v)) => match rfind_pat(v, 0, v.len() as int, crate::semantic::as_word()) {
                Some(p) => {
                    let (s, e) = crate::semantic::trim_range(v, p + 4, v.len() as int);
                    let alias = v.subrange(s, e);
                    match rfind_pat(line, 0, line.len() as int, alias) {
                        Some(q) => Some(
                            SourceSpan {
                                file_id: span.file_id,
                                start: (span.start + q) as usize,
                                end: (span.start + q + alias.len()) as usize,
                            },
                        ),
                        None => None,
                    }
                },
                None => None,
            },
            _ => None,
        }
    }
}

/// The target of an import directive: its trimmed value up to ` as `, unquoted.
pub open spec fn target_of(value: Option<Seq<u8>>) -> Option<Seq<u8>> {
    match value {
        None => None,
        Some(v) => {
            let (s, e) = crate::semantic::trim_range(v, 0, v.len() as int);
            let head = before_as(v.subrange(s, e));
            let (qs, qe) = crate::semantic::unquoted(head, 0, head.len() as int);
            Some(head.subrange(qs, qe))
        },
    }
}

pub open spec fn opt_contains(span: Option<SourceSpan>, offset: int) -> bool {
    match span {
        Some(s) => contains(s, offset),
        None => false,
    }
}

/// The file that an import directive names, when the offset is on its target or alias.
pub open spec fn directive_target_at(norm: Seq<u8>, file_id: FileId, name: Seq<u8>, span: SourceSpan, value: Option<Seq<u8>>, offset: int) -> Option<
    Seq<u8>,
> {
    if import_like(name) && (opt_contains(target_span(norm, file_id, span, value), offset) || opt_contains(
        alias_span(norm, file_id, name, span, value),
        offset,
    )) {
        target_of(value)
    } else {
        None
    }
}

/// A span without the white space at its two ends.
pub open spec fn trimmed_span(norm: Seq<u8>, file_id: FileId, span: SourceSpan) -> Option<SourceSpan> {
    match source_slice(norm, file_id, span) {
        None => None,
        Some(t) => Some(
            SourceSpan {
                file_id: span.file_id,
                start: (span.start + skip_ws(t, 0, t.len() as int)) as usize,
                end: (span.start + skip_ws_back(t, 0, t.len() as int)) as usize,
            },
        ),
    }
}

/// The identifier path under the offset in a let binding's value.
pub open spec fn let_ref(norm: Seq<u8>, file_id: FileId, value_span: Option<SourceSpan>, offset: int) -> Option<
    Seq<Seq<u8>>,
> {
    match value_span {
        None => None,
        Some(vs) => if !contains(vs, offset) {
            None
        } else {
            match trimmed_span(norm, file_id, vs) {
                None => None,
                Some(ts) => match ident_path(norm, file_id, ts, offset) {
                    Some((_, p)) => Some(p),
                    None => None,
                },
            }
        },
    }
}

fn piece_text(b: &[u8], lo: usize, hi: usize) -> (out: Vec<u8>)
    requires
        lo <= hi <= b@.len(),
    ensures
        out@ == b@.subrange(lo as int, hi as int),
{
    let mut out: Vec<u8> = Vec::new();
    crate::text::push_range(&mut out, b, lo, hi);
    proof {
        assert(out@ =~= b@.subrange(lo as int, hi as int));
    }
    out
}

fn before_as_end(v: &[u8]) -> (e: usize)
    ensures
        v@.subrange(0, e as int) == before_as(v@),
        e <= v@.len(),
{
    let pat: [u8; 4] = [0x20, 0x61, 0x73, 0x20];
    proof {
        assert(pat@ =~= crate::semantic::as_word());
        lemma_find_pat_bounds(v@, 0, v@.len() as int, pat@);
    }
    match find_pat_exec(v, 0, v.len(), pat.as_slice()) {
        Some(p) => p,
        None => {
            proof {
                assert(v@.subrange(0, v@.len() as int) =~= v@);
            }
            v.len()
        },
    }
}

pub(crate) fn target_span_exec(source: &SourceText, span: SourceSpan, value: &Option<String>) -> (r: Option<SourceSpan>)
    ensures
        r == target_span(source.bytes(), source.file_id, span, crate::ast::opt_text(*value)),
{
    let line = match source.slice(span) {
        Some(l) => l,
        None => {
            return None;
        },
    };
    let v = match value {
        Some(v) => v.as_str().as_bytes(),
        None => {
            return None;
        },
    };
    let e = before_as_end(v);
    let lb = line.as_bytes();
    proof {
        lemma_find_pat_bounds(lb@, 0, lb@.len() as int, v@.subrange(0, e as int));
    }
    let target = piece_text(v, 0, e);
    match find_pat_exec(lb, 0, lb.len(), target.as_slice()) {
        Some(p) => {
            proof {
                assert(span.start + p + e <= span.end);
            }
            Some(SourceSpan::new(span.file_id, span.start + p, span.start + p + e))
        },
        None => None,
    }
}

fn is_import_or_use(name: &str) -> (r: bool)
    ensures
        r == (utf8(name@) == lit("@import") || utf8(name@) == lit("@use")),
{
    proof {
        if utf8(name@) == utf8("@import"@) {
            crate::text::lemma_utf8_injective(name@, "@import"@);
        }
        if utf8(name@) == utf8("@use"@) {
            crate::text::lemma_utf8_injective(name@, "@use"@);
        }
    }
    str_eq(name, "@import") || str_eq(name, "@use")
}

pub(crate) fn is_import_like(name: &str) -> (r: bool)
    ensures
        r == import_like(utf8(name@)),
{
    proof {
        if utf8(name@) == utf8("@include"@) {
            crate::text::lemma_utf8_injective(name@, "@include"@);
        }
    }
    is_import_or_use(name) || str_eq(name, "@include")
}

pub(crate) fn alias_span_exec(source: &SourceText, name: &str, span: SourceSpan, value: &Option<String>) -> (r: Option<SourceSpan>)
    ensures
        r == alias_span(source.bytes(), source.file_id, utf8(name@), span, crate::ast::opt_text(*value)),
{
    if !is_import_or_use(name) {
        return None;
    }
    let line = match source.slice(span) {
        Some(l) => l,
        None => {
            return None;
        },
    };
    let v = match value {
        Some(v) => v.as_str().as_bytes(),
        None => {
            return None;
        },
    };
    let pat: [u8; 4] = [0x20, 0x61, 0x73, 0x20];
    proof {
        assert(pat@ =~= crate::semantic::as_word());
        lemma_rfind_pat_bounds(v@, 0, v@.len() as int, pat@);
    }
    let p = match rfind_pat_exec(v, 0, v.len(), pat.as_slice()) {
        Some(p) => p,
        None => {
            return None;
        },
    };
    proof {
        lemma_skip_ws_bounds(v@, p + 4, v@.len() as int);
        lemma_skip_ws_back_bounds(v@, crate::text::skip_ws(v@, p + 4, v@.len() as int), v@.len() as int);
    }
    let s = trim_start_at(v, p + 4, v.len());
    let e = trim_end_at(v, s, v.len());
    let alias = piece_text(v, s, e);
    let lb = line.as_bytes();
    proof {
        lemma_rfind_pat_bounds(lb@, 0, lb@.len() as int, alias@);
    }
    match rfind_pat_exec(lb, 0, lb.len(), alias.as_slice()) {
        Some(q) => {
            proof {
                assert(span.start + q + alias@.len() <= span.end);
            }
            Some(SourceSpan::new(span.file_id, span.start + q, span.start + q + alias.len()))
        },
        None => None,
    }
}

pub(crate) fn target_of_exec(value: &Option<String>) -> (r: Option<String>)
    ensures
        match target_of(crate::ast::opt_text(*value)) {
            Some(t) => r matches Some(x) && utf8(x@) == t,
            None => r is None,
        },
{
    let v = match value {
        Some(v) => v.as_str().as_bytes(),
        None => {
            return None;
        },
    };
    proof {
        lemma_str_valid(value->0@);
    }
    let (s, e) = crate::formatting::trimmed_piece(v, 0, v.len());
    let trimmed = piece_text(v, s, e);
    proof {
        crate::text::lemma_valid_subrange(v@, s as int, e as int);
    }
    let h = before_as_end(trimmed.as_slice());
    proof {
        lemma_find_pat_bounds(trimmed@, 0, trimmed@.len() as int, crate::semantic::as_word());
        if h < trimmed@.len() {
            crate::text::lemma_match_boundary(trimmed@, h as int, trimmed@.len() as int, crate::semantic::as_word());
        }
    }
    let head = piece_text(trimmed.as_slice(), 0, h);
    proof {
        crate::text::lemma_valid_subrange(trimmed@, 0, h as int);
    }
    let (qs, qe) = crate::semantic::unquoted_exec(head.as_slice(), 0, head.len());
    Some(crate::text::substring(head.as_slice(), qs, qe))
}

/// The import target under the offset on a directive, if any.
pub fn directive_implementation_target(directive: &Directive, offset: usize, source: &SourceText) -> (r: Option<String>)
    ensures
        match directive_target_at(
            source.bytes(),
            source.file_id,
            utf8(directive.name@),
            directive.span,
            crate::ast::opt_text(directive.value),
            offset as int,
        ) {
            Some(t) => r matches Some(x) && utf8(x@) == t,
            None => r is None,
        },
{
    if !is_import_like(directive.name.as_str()) {
        return None;
    }
    let on_target = match target_span_exec(source, directive.span, &directive.value) {
        Some(s) => s.start <= offset && offset < s.end,
        None => false,
    };
    let on_alias = match alias_span_exec(source, directive.name.as_str(), directive.span, &directive.value) {
        Some(s) => s.start <= offset && offset < s.end,
        None => false,
    };
    if on_target || on_alias {
        target_of_exec(&directive.value)
    } else {
        None
    }
}

pub(crate) fn trimmed_span_exec(source: &SourceText, span: SourceSpan) -> (r: Option<SourceSpan>)
    ensures
        r == trimmed_span(source.bytes(), source.file_id, span),
{
    let t = match source.slice(span) {
        Some(t) => t.as_bytes(),
        None => {
            return None;
        },
    };
    proof {
        lemma_skip_ws_bounds(t@, 0, t@.len() as int);
        crate::text::lemma_skip_ws_back_bounds(t@, 0, t@.len() as int);
    }
    let s = trim_start_at(t, 0, t.len());
    let e = trim_end_at(t, 0, t.len());
    Some(SourceSpan::new(span.file_id, span.start + s, span.start + e))
}

/// The identifier path under the offset in a let binding's value, if any.
pub fn let_implementation_path(binding: &LetBinding, offset: usize, source: &SourceText) -> (r: Option<IdentifierPath>)
    ensures
        match let_ref(source.bytes(), source.file_id, binding.value_span, offset as int) {
            Some(p) => r matches Some(x) && x.view_path() == p,
            None => r is None,
        },
{
    let vs = match binding.value_span {
        Some(v) => v,
        None => {
            return None;
        },
    };
    if !(vs.start <= offset && offset < vs.end) {
        return None;
    }
    let ts = match trimmed_span_exec(source, vs) {
        Some(t) => t,
        None => {
            return None;
        },
    };
    match identifier_path_at_span(ts, offset, source) {
        Some((_, path)) => Some(path),
        None => None,
    }
}

// ---------------------------------------------------------------------------
// The file
/// What "go to implementation" tries, in order: the file an import names, or the definition
/// an identifier path leads to.
#[derive(Debug, Clone, PartialEq, Eq)]
pub enum ImplementationTarget {
    Import(String),
    Reference(IdentifierPath),
}

pub enum TargetV {
    Import(Seq<u8>),
    Reference(Seq<Seq<u8>>),
}

impl ImplementationTarget {
    pub open spec fn view_target(&self) -> TargetV {
        match self {
            ImplementationTarget::Import(t) => TargetV::Import(utf8(t@)),
            ImplementationTarget::Reference(p) => TargetV::Reference(p.view_path()),
        }
    }
}

pub open spec fn targets_view(s: Seq<ImplementationTarget>) -> Seq<TargetV> {
    s.map_values(|t: ImplementationTarget| t.view_target())
}

pub open spec fn item_targets(i: DocItemV, norm: Seq<u8>, file_id: FileId, offset: int) -> Seq<TargetV> {
    match i {
        DocItemV::Directive { name, span, value } => match directive_target_at(
            norm,
            file_id,
            name,
            span,
            value,
            offset,
        ) {
            Some(t) => seq![TargetV::Import(t)],
            None => seq![],
        },
        DocItemV::Let { value_span, .. } => match let_ref(norm, file_id, value_span, offset) {
            Some(p) => seq![TargetV::Reference(p)],
            None => seq![],
        },
        DocItemV::Node(n) => node_refs(n, norm, file_id, offset).map_values(
            |p: Seq<Seq<u8>>| TargetV::Reference(p),
        ),
        DocItemV::Comment { .. } => seq![],
    }
}

pub open spec fn items_targets(items: Seq<DocItemV>, norm: Seq<u8>, file_id: FileId, offset: int, k: int) -> Seq<TargetV>
    decreases k,
{
    if k <= 0 {
        seq![]
    } else {
        items_targets(items, norm, file_id, offset, k - 1) + item_targets(items[k - 1], norm, file_id, offset)
    }
}

pub open spec fn docs_targets(docs: Seq<DocV>, norm: Seq<u8>, file_id: FileId, offset: int, k: int) -> Seq<TargetV>
    decreases k,
{
    if k <= 0 {
        seq![]
    } else {
        docs_targets(docs, norm, file_id, offset, k - 1) + items_targets(
            docs[k - 1].items,
            norm,
            file_id,
            offset,
            docs[k - 1].items.len() as int,
        )
    }
}

fn push_item_targets(item: &DocumentItem, offset: usize, source: &SourceText, out: &mut Vec<ImplementationTarget>)
    requires
        item matches DocumentItem::Node(n) ==> n.nested_leaves(),
    ensures
        targets_view(final(out)@) == targets_view(old(out)@) + item_targets(
            item.view_item(),
            source.bytes(),
            source.file_id,
            offset as int,
        ),
{
    let ghost before = out@;
    let ghost norm = source.bytes();
    let ghost fid = source.file_id;
    match item {
        DocumentItem::Directive(d) => {
            if let Some(t) = directive_implementation_target(d, offset, source) {
                out.push(ImplementationTarget::Import(t));
            }
        },
        DocumentItem::Let(l) => {
            if let Some(p) = let_implementation_path(l, offset, source) {
                out.push(ImplementationTarget::Reference(p));
            }
        },
        DocumentItem::Node(n) => {
            let paths = node_implementation_navigation(n, offset, source);
            let ghost pv = paths_view(paths@);
            let mut rest = paths;
            let total = rest.len();
            let mut i: usize = 0;
            let ghost all = rest@;
            while i < total
                invariant
                    i <= total,
                    total == all.len(),
                    pv == paths_view(all),
                    rest@ == all.subrange(i as int, total as int),
                    targets_view(out@) =~= targets_view(before) + pv.subrange(0, i as int).map_values(
                        |p: Seq<Seq<u8>>| TargetV::Reference(p),
                    ),
                decreases total - i,
            {
                let p = rest.remove(0);
                let ghost prev = out@;
                proof {
                    assert(p == all[i as int]);
                    assert(pv[i as int] == p.view_path());
                    assert(pv.subrange(0, i + 1) =~= pv.subrange(0, i as int).push(p.view_path()));
                }
                let t = ImplementationTarget::Reference(p);
                out.push(t);
                proof {
                    assert(rest@ =~= all.subrange(i + 1, total as int));
                    assert(t.view_target() == TargetV::Reference(pv[i as int]));
                    assert(targets_view(out@) =~= targets_view(prev).push(t.view_target()));
                    assert(pv.subrange(0, i + 1).map_values(|p: Seq<Seq<u8>>| TargetV::Reference(p))
                        =~= pv.subrange(0, i as int).map_values(|p: Seq<Seq<u8>>| TargetV::Reference(p)).push(
                        TargetV::Reference(pv[i as int]),
                    ));
                }
                i = i + 1;
            }
            proof {
                assert(pv.subrange(0, total as int) =~= pv);
            }
        },
        DocumentItem::Comment(_) => {},
    }
    proof {
        assert(targets_view(out@) =~= targets_view(before) + item_targets(item.view_item(), norm, fid, offset as int));
    }
}

/// The targets that "go to implementation" tries at an offset, in document order; the
/// first that leads somewhere is the answer.
pub fn implementation_candidates(documents: &Vec<Document>, offset: usize, source: &SourceText) -> (targets: Vec<ImplementationTarget>)
    requires
        forall|i: int| 0 <= i < documents@.len() ==> (#[trigger] documents@[i]).nodes_nested_leaves(),
    ensures
        targets_view(targets@) == docs_targets(
            documents@.map_values(|d: Document| d.view_doc()),
            source.bytes(),
            source.file_id,
            offset as int,
            documents@.len() as int,
        ),
{
    let ghost docs = documents@.map_values(|d: Document| d.view_doc());
    let ghost norm = source.bytes();
    let ghost fid = source.file_id;
    let mut out: Vec<ImplementationTarget> = Vec::new();
    let n = documents.len();
    let mut i: usize = 0;
    while i < n
        invariant
            i <= n,
            n == documents@.len(),
            docs == documents@.map_values(|d: Document| d.view_doc()),
            norm == source.bytes(),
            fid == source.file_id,
            forall|k: int| 0 <= k < documents@.len() ==> (#[trigger] documents@[k]).nodes_nested_leaves(),
            targets_view(out@) =~= docs_targets(docs, norm, fid, offset as int, i as int),
        decreases n - i,
    {
        let document = &documents[i];
        let ghost items = document.view_doc().items;
        let ghost head = out@;
        assert(documents@[i as int].nodes_nested_leaves());
        let m = document.items.len();
        let mut j: usize = 0;
        while j < m
            invariant
                j <= m,
                m == document.items@.len(),
                items == document.view_doc().items,
                norm == source.bytes(),
                fid == source.file_id,
                document.nodes_nested_leaves(),
                targets_view(out@) =~= targets_view(head) + items_targets(items, norm, fid, offset as int, j as int),
            decreases m - j,
        {
            assert(document.items@[j as int] matches DocumentItem::Node(nd) ==> nd.nested_leaves());
            push_item_targets(&document.items[j], offset, source, &mut out);
            proof {
                assert(items[j as int] == document.items@[j as int].view_item());
            }
            j = j + 1;
        }
        proof {
            assert(docs[i as int] == document.view_doc());
        }
        i = i + 1;
    }
    out
}

} // verus!
