//! "Find references": what the symbol under the cursor is (a let binding, an import alias,
//! an imported file, a schema or profile name, or a key path), and every place in the
//! workspace that names it, sorted and without repeats.
use vstd::prelude::*;
use vstd::utf8::{decode_utf8, valid_utf8};

use crate::ast::{DocItemV, DocV, Document, DocumentItem, EntryV, ItemV, LeafV, MappingEntry, Node, NodeV, ScalarKind};
use crate::code_actions::common::source_slice;
use crate::config::LumalsConfig;
use crate::diagnostics::{bytes_lt, bytes_lt_exec, lemma_bytes_lt_order};
use crate::goto::{
    at, build_entry, defs_of, docs_of, dotted, dotted_exec, entries_ok, entry_ok, file_v, files_v, first_def,
    first_def_exec, lexable, loc_view, locs_view, norm_of, normalized_name, normalized_name_exec, parse_range,
    parse_range_exec, push_loc, span_range, span_range_exec, static_path, static_path_exec, strs, value_span,
    value_span_exec, value_text, value_text_exec, Entry, FileV, LocV, Location,
};
use crate::imports::{guarded_import_spec, resolve_guarded_import, strings_view};
use crate::navigation::{
    alias_span, ident_path, identifier_path_at_span, import_like, is_ident_byte, is_path_byte, opt_contains, path_end,
    target_of, target_span, contains, IdentifierPath,
};
use crate::outline::{metadata_span, tag_span};
use crate::parser::parse_fallback;
use crate::semantic::defs_view;
use crate::symbols::{lit, path_text, DefV, Definition, DefinitionKind};
use crate::position::Range;
use crate::syntax::{FileId, ParsedFile, SourceSpan, SourceText};
use crate::text::{bytes_eq, find_pat, find_pat_exec, str_eq, utf8};

verus! {

broadcast use vstd::utf8::encode_utf8_decode_utf8;

// ---------------------------------------------------------------------------
// What is referenced

/// The symbol whose references are sought.
pub enum RefTargetV {
    /// A let binding of a file, by name.
    Let(Seq<char>, Seq<u8>),
    /// An import alias of a file, by name.
    Alias(Seq<char>, Seq<u8>),
    /// A file that imports lead to.
    Import(Seq<char>),
    /// A schema, profile or tag name.
    TypeLike(Seq<u8>),
    /// A key of a file, by its path text.
    KeyPath(Seq<char>, Seq<u8>),
}

/// The request: the current file, the offset and what imports resolve against.
pub struct RefCtx {
    pub cur: FileV,
    pub offset: int,
    pub folders: Seq<Seq<char>>,
    pub config: LumalsConfig,
}

pub open spec fn schema_like(name: Seq<u8>) -> bool {
    name == lit("@schema") || name == lit("@profile")
}

/// The file and key path that an identifier of file `f` stands for: an alias's import
/// target (and nothing when that import does not resolve), or where the `${...}` value of a
/// let binding leads, followed for at most the configured depth.
pub open spec fn static_r(
    f: FileV,
    folders: Seq<Seq<char>>,
    config: LumalsConfig,
    ident: Seq<u8>,
    depth: int,
) -> Option<(Seq<char>, Seq<Seq<u8>>)>
    decreases config.max_resolve_depth - depth,
{
    if depth < 0 || depth >= config.max_resolve_depth {
        None
    } else {
        match first_def(defs_of(f), DefinitionKind::Alias, ident, 0) {
            Some(a) => match a.detail {
                Some(t) => match guarded_import_spec(f.uri, decode_utf8(t), folders, config) {
                    Ok(u) => Some((u, seq![])),
                    Err(_) => None,
                },
                None => None,
            },
            None => match first_def(defs_of(f), DefinitionKind::Let, ident, 0) {
                None => None,
                Some(b) => match b.detail {
                    None => None,
                    Some(det) => match parse_range(det) {
                        None => None,
                        Some((s, e)) => match value_text(f, s, e) {
                            None => None,
                            Some(vt) => match static_path(vt) {
                                None => None,
                                Some(segs) => match static_r(f, folders, config, segs[0], depth + 1) {
                                    None => None,
                                    Some((u, pre)) => Some((u, pre + segs.drop_first())),
                                },
                            },
                        },
                    },
                },
            },
        }
    }
}

/// `.a.b` for the segments from `a` up to `b`.
pub open spec fn joined(segs: Seq<Seq<u8>>, a: int, b: int) -> Seq<u8>
    decreases b - a,
{
    if b <= a {
        seq![]
    } else {
        joined(segs, a, b - 1) + seq![0x2eu8] + segs[b - 1]
    }
}

/// The key path that segments `1..k` of a path lead to from its first segment in file `f`.
pub open spec fn key_path_via(
    f: FileV,
    folders: Seq<Seq<char>>,
    config: LumalsConfig,
    segs: Seq<Seq<u8>>,
    k: int,
) -> Option<(Seq<char>, Seq<u8>)> {
    match static_r(f, folders, config, segs[0], 0) {
        Some((u, pre)) => Some((u, dotted(pre, pre.len() as int) + joined(segs, 1, k))),
        None => None,
    }
}

/// The number of dots in `b[lo..hi]`.
pub open spec fn count_dots(b: Seq<u8>, lo: int, hi: int) -> nat
    decreases hi - lo,
{
    if hi <= lo {
        0
    } else {
        count_dots(b, lo, hi - 1) + (if b[hi - 1] == 0x2e { 1nat } else { 0nat })
    }
}

/// What a path of the current file names, with segment `sel` under the cursor: the base's
/// alias, let binding or (for a single segment) key, else the key path it leads to.
pub open spec fn resolve_r(c: RefCtx, segs: Seq<Seq<u8>>, sel: int) -> Option<RefTargetV> {
    let defs = defs_of(c.cur);
    let base = segs[0];
    if sel == 0 && first_def(defs, DefinitionKind::Alias, base, 0) is Some {
        Some(RefTargetV::Alias(c.cur.uri, base))
    } else if sel == 0 && first_def(defs, DefinitionKind::Let, base, 0) is Some {
        Some(RefTargetV::Let(c.cur.uri, base))
    } else if sel == 0 && segs.len() == 1 && first_def(defs, DefinitionKind::Key, base, 0) is Some {
        let d = first_def(defs, DefinitionKind::Key, base, 0)->Some_0;
        Some(RefTargetV::KeyPath(c.cur.uri, path_text(d.path, d.path.len() as int)))
    } else {
        let k = if sel + 1 < segs.len() { sel + 1 } else { segs.len() as int };
        match key_path_via(c.cur, c.folders, c.config, segs, k) {
            Some((u, p)) => Some(RefTargetV::KeyPath(u, p)),
            None => None,
        }
    }
}

/// The path under the cursor inside `span`, resolved.
pub open spec fn path_t(c: RefCtx, span: SourceSpan) -> Option<RefTargetV> {
    let norm = norm_of(c.cur);
    match ident_path(norm, c.cur.file_id, span, c.offset) {
        Some((ps, segs)) => resolve_r(c, segs, count_dots(norm, ps.start as int, c.offset) as int),
        None => None,
    }
}

/// The first key definition from `i` on whose selection contains the offset.
pub open spec fn key_at(defs: Seq<DefV>, offset: int, i: int) -> Option<DefV>
    decreases defs.len() - i,
{
    if i < 0 || i >= defs.len() {
        None
    } else if defs[i].kind == DefinitionKind::Key && contains(defs[i].selection_span, offset) {
        Some(defs[i])
    } else {
        key_at(defs, offset, i + 1)
    }
}

/// The first key definition from `i` on whose selection is `span`.
pub open spec fn key_def_at(defs: Seq<DefV>, span: SourceSpan, i: int) -> Option<DefV>
    decreases defs.len() - i,
{
    if i < 0 || i >= defs.len() {
        None
    } else if defs[i].kind == DefinitionKind::Key && defs[i].selection_span == span {
        Some(defs[i])
    } else {
        key_def_at(defs, span, i + 1)
    }
}

pub open spec fn key_target(u: Seq<char>, d: DefV) -> RefTargetV {
    RefTargetV::KeyPath(u, path_text(d.path, d.path.len() as int))
}

/// An import's target under the cursor names the file it resolves to; a schema or profile
/// value names itself.
pub open spec fn dir_t(c: RefCtx, name: Seq<u8>, span: SourceSpan, value: Option<Seq<u8>>) -> Option<RefTargetV> {
    let norm = norm_of(c.cur);
    let fid = c.cur.file_id;
    if import_like(name) && opt_contains(target_span(norm, fid, span, value), c.offset) {
        match target_of(value) {
            Some(t) => match guarded_import_spec(c.cur.uri, decode_utf8(t), c.folders, c.config) {
                Ok(u) => Some(RefTargetV::Import(u)),
                Err(_) => None,
            },
            None => None,
        }
    } else if schema_like(name) && opt_contains(value_span(norm, fid, span, value), c.offset) {
        match value {
            Some(v) => Some(RefTargetV::TypeLike(normalized_name(v))),
            None => None,
        }
    } else {
        None
    }
}

/// A let binding's name names the binding; a path in its value names what it leads to.
pub open spec fn let_t(c: RefCtx, name: Seq<u8>, span: SourceSpan, value_span: Option<SourceSpan>) -> Option<RefTargetV> {
    let ns = span.start + 4;
    let ne = span.start + 4 + name.len();
    if span.end >= ne && ns <= c.offset < ne {
        Some(RefTargetV::Let(c.cur.uri, name))
    } else {
        match value_span {
            Some(vs) => if contains(vs, c.offset) {
                match crate::navigation::trimmed_span(norm_of(c.cur), c.cur.file_id, vs) {
                    Some(ts) => path_t(c, ts),
                    None => None,
                }
            } else {
                None
            },
            None => None,
        }
    }
}

pub open spec fn leaf_t(c: RefCtx, l: Option<LeafV>) -> Option<RefTargetV> {
    match l {
        Some(LeafV::Scalar { kind, span, .. }) => if kind == ScalarKind::LuaExpression {
            path_t(c, span)
        } else {
            None
        },
        _ => None,
    }
}

/// A key with a definition names its path, its metadata names a type; else its value.
pub open spec fn entries_t(c: RefCtx, es: Seq<EntryV>, i: int) -> Option<RefTargetV>
    decreases es.len() - i,
{
    if i < 0 || i >= es.len() {
        None
    } else {
        let e = es[i];
        let norm = norm_of(c.cur);
        let fid = c.cur.file_id;
        if contains(e.key_span, c.offset) && key_def_at(defs_of(c.cur), e.key_span, 0) is Some {
            Some(key_target(c.cur.uri, key_def_at(defs_of(c.cur), e.key_span, 0)->Some_0))
        } else if opt_contains(metadata_span(norm, fid, e), c.offset) {
            match source_slice(norm, fid, metadata_span(norm, fid, e)->Some_0) {
                Some(m) => Some(RefTargetV::TypeLike(m)),
                None => None,
            }
        } else if leaf_t(c, e.value) is Some {
            leaf_t(c, e.value)
        } else {
            entries_t(c, es, i + 1)
        }
    }
}

pub open spec fn seq_t(c: RefCtx, items: Seq<ItemV>, i: int) -> Option<RefTargetV>
    decreases items.len() - i,
{
    if i < 0 || i >= items.len() {
        None
    } else if leaf_t(c, items[i].value) is Some {
        leaf_t(c, items[i].value)
    } else {
        seq_t(c, items, i + 1)
    }
}

pub open spec fn node_t(c: RefCtx, n: NodeV) -> Option<RefTargetV> {
    match n {
        NodeV::Mapping { entries, .. } => entries_t(c, entries, 0),
        NodeV::Sequence { items, .. } => seq_t(c, items, 0),
        NodeV::Leaf(l) => leaf_t(c, Some(l)),
        NodeV::Tag { name, span, value } => if opt_contains(tag_span(norm_of(c.cur), c.cur.file_id, span), c.offset) {
            Some(RefTargetV::TypeLike(name))
        } else {
            leaf_t(c, value)
        },
        _ => None,
    }
}

pub open spec fn item_t(c: RefCtx, i: DocItemV) -> Option<RefTargetV> {
    match i {
        DocItemV::Directive { name, span, value } => dir_t(c, name, span, value),
        DocItemV::Let { name, span, value_span } => let_t(c, name, span, value_span),
        DocItemV::Node(n) => node_t(c, n),
        DocItemV::Comment { .. } => None,
    }
}

pub open spec fn items_t(c: RefCtx, items: Seq<DocItemV>, i: int) -> Option<RefTargetV>
    decreases items.len() - i,
{
    if i < 0 || i >= items.len() {
        None
    } else if item_t(c, items[i]) is Some {
        item_t(c, items[i])
    } else {
        items_t(c, items, i + 1)
    }
}

pub open spec fn docs_t(c: RefCtx, docs: Seq<DocV>, d: int) -> Option<RefTargetV>
    decreases docs.len() - d,
{
    if d < 0 || d >= docs.len() {
        None
    } else if items_t(c, docs[d].items, 0) is Some {
        items_t(c, docs[d].items, 0)
    } else {
        docs_t(c, docs, d + 1)
    }
}

/// The symbol at the offset: a key whose name is under it, else the first item of the
/// current file that names something there.
pub open spec fn ref_target(c: RefCtx) -> Option<RefTargetV> {
    match key_at(defs_of(c.cur), c.offset, 0) {
        Some(d) => Some(key_target(c.cur.uri, d)),
        None => docs_t(c, docs_of(c.cur), 0),
    }
}


// ---------------------------------------------------------------------------
// Where a file names it

/// A location at `span` of file `f`, when the span converts to a range of its text.
pub open spec fn loc_at(f: FileV, span: SourceSpan) -> Seq<LocV> {
    match span_range(utf8(f.text), span) {
        Some(r) => seq![(f.uri, r)],
        None => seq![],
    }
}

/// Where a run of non-dot bytes that starts at `i` ends.
pub open spec fn run_end(t: Seq<u8>, i: int) -> int
    decreases t.len() - i,
{
    if 0 <= i < t.len() && t[i] != 0x2e {
        run_end(t, i + 1)
    } else {
        i
    }
}

/// The runs of non-dot bytes of `t` from `i` on, as `(start, end)` pairs.
pub open spec fn runs(t: Seq<u8>, i: int) -> Seq<(int, int)>
    decreases t.len() - i,
{
    if i < 0 || i >= t.len() {
        seq![]
    } else if t[i] == 0x2e {
        runs(t, i + 1)
    } else if i < run_end(t, i) <= t.len() {
        seq![(i, run_end(t, i))] + runs(t, run_end(t, i))
    } else {
        seq![]
    }
}

pub open spec fn run_texts(t: Seq<u8>, rs: Seq<(int, int)>) -> Seq<Seq<u8>> {
    rs.map_values(|r: (int, int)| t.subrange(r.0, r.1))
}

/// The context of a search in one file.
pub struct FileCtx {
    pub f: FileV,
    pub target: RefTargetV,
    pub folders: Seq<Seq<char>>,
    pub config: LumalsConfig,
}

/// Segment `k` of a path in an expression, at `span`: the first segment names a let binding
/// or alias of the file; a later one the key path it leads to.
pub open spec fn seg_c(x: FileCtx, segs: Seq<Seq<u8>>, k: int, span: SourceSpan) -> Seq<SourceSpan> {
    match x.target {
        RefTargetV::Let(u, n) => if x.f.uri == u && segs[0] == n && k == 0 {
            seq![span]
        } else {
            seq![]
        },
        RefTargetV::Alias(u, n) => if x.f.uri == u && segs[0] == n && k == 0 {
            seq![span]
        } else {
            seq![]
        },
        RefTargetV::KeyPath(u, p) => if k > 0 && key_path_via(x.f, x.folders, x.config, segs, k + 1) == Some((u, p)) {
            seq![span]
        } else {
            seq![]
        },
        _ => seq![],
    }
}

/// The segments `0..k` of the path token `tok`, which stands at `base` in the file.
pub open spec fn segs_c(x: FileCtx, tok: Seq<u8>, base: int, k: int) -> Seq<SourceSpan>
    decreases k,
{
    if k <= 0 {
        seq![]
    } else {
        let rs = runs(tok, 0);
        segs_c(x, tok, base, k - 1) + seg_c(
            x,
            run_texts(tok, rs),
            k - 1,
            at(x.f.file_id, base + rs[k - 1].0, base + rs[k - 1].1),
        )
    }
}

/// The path tokens of an expression text `t` (at `base` in the file) from `i` on.
pub open spec fn scan_c(x: FileCtx, t: Seq<u8>, base: int, i: int) -> Seq<SourceSpan>
    decreases t.len() - i,
{
    if i < 0 || i >= t.len() {
        seq![]
    } else if !is_ident_byte(t[i]) {
        scan_c(x, t, base, i + 1)
    } else if i < path_end(t, i + 1) <= t.len() {
        let e = path_end(t, i + 1);
        let tok = t.subrange(i, e);
        segs_c(x, tok, base + i, runs(tok, 0).len() as int) + scan_c(x, t, base, e)
    } else {
        seq![]
    }
}

/// The references in an expression at `span` of the file.
pub open spec fn expr_c(x: FileCtx, span: SourceSpan) -> Seq<SourceSpan> {
    match source_slice(utf8(x.f.text), x.f.file_id, span) {
        Some(t) => scan_c(x, t, span.start as int, 0),
        None => seq![],
    }
}

pub open spec fn dir_c(x: FileCtx, name: Seq<u8>, span: SourceSpan, value: Option<Seq<u8>>) -> Seq<SourceSpan> {
    let raw = utf8(x.f.text);
    let fid = x.f.file_id;
    match x.target {
        RefTargetV::Alias(u, n) => if x.f.uri == u {
            match alias_span(raw, fid, name, span, value) {
                Some(sp) => if source_slice(raw, fid, sp) == Some(n) {
                    seq![sp]
                } else {
                    seq![]
                },
                None => seq![],
            }
        } else {
            seq![]
        },
        RefTargetV::Import(u) => if import_like(name) {
            match target_of(value) {
                Some(t) => if guarded_import_spec(x.f.uri, decode_utf8(t), x.folders, x.config) == Ok::<
                    Seq<char>,
                    crate::imports::ImportRefusal,
                >(u) {
                    match target_span(raw, fid, span, value) {
                        Some(sp) => seq![sp],
                        None => seq![],
                    }
                } else {
                    seq![]
                },
                None => seq![],
            }
        } else {
            seq![]
        },
        RefTargetV::TypeLike(n) => if schema_like(name) && (value matches Some(v) && normalized_name(v) == n) {
            match value_span(raw, fid, span, value) {
                Some(sp) => seq![sp],
                None => seq![],
            }
        } else {
            seq![]
        },
        _ => seq![],
    }
}

pub open spec fn let_c(x: FileCtx, name: Seq<u8>, span: SourceSpan, value_span: Option<SourceSpan>) -> Seq<SourceSpan> {
    let own = match x.target {
        RefTargetV::Let(u, n) => if x.f.uri == u && name == n && span.end >= span.start + 4 + name.len() {
            seq![at(span.file_id, span.start + 4, span.start + 4 + name.len())]
        } else {
            seq![]
        },
        _ => seq![],
    };
    own + match value_span {
        Some(vs) => expr_c(x, vs),
        None => seq![],
    }
}

pub open spec fn leaf_c(x: FileCtx, l: Option<LeafV>) -> Seq<SourceSpan> {
    match l {
        Some(LeafV::Scalar { kind, span, .. }) => if kind == ScalarKind::LuaExpression {
            expr_c(x, span)
        } else {
            seq![]
        },
        _ => seq![],
    }
}

/// Some key definition of the file has this selection and path.
pub open spec fn has_key_def(defs: Seq<DefV>, span: SourceSpan, p: Seq<u8>) -> bool {
    exists|j: int|
        0 <= j < defs.len() && (#[trigger] defs[j]).kind == DefinitionKind::Key && defs[j].selection_span == span
            && path_text(defs[j].path, defs[j].path.len() as int) == p
}

pub open spec fn entry_c(x: FileCtx, e: EntryV) -> Seq<SourceSpan> {
    let raw = utf8(x.f.text);
    let fid = x.f.file_id;
    let key = match x.target {
        RefTargetV::KeyPath(u, p) => if x.f.uri == u && has_key_def(defs_of(x.f), e.key_span, p) {
            seq![e.key_span]
        } else {
            seq![]
        },
        _ => seq![],
    };
    let meta = match (metadata_span(raw, fid, e), x.target) {
        (Some(ms), RefTargetV::TypeLike(n)) => if source_slice(raw, fid, ms) == Some(n) {
            seq![ms]
        } else {
            seq![]
        },
        _ => seq![],
    };
    key + meta + leaf_c(x, e.value)
}

pub open spec fn entries_c(x: FileCtx, es: Seq<EntryV>, k: int) -> Seq<SourceSpan>
    decreases k,
{
    if k <= 0 {
        seq![]
    } else {
        entries_c(x, es, k - 1) + entry_c(x, es[k - 1])
    }
}

pub open spec fn seqitems_c(x: FileCtx, items: Seq<ItemV>, k: int) -> Seq<SourceSpan>
    decreases k,
{
    if k <= 0 {
        seq![]
    } else {
        seqitems_c(x, items, k - 1) + leaf_c(x, items[k - 1].value)
    }
}

pub open spec fn node_c(x: FileCtx, n: NodeV) -> Seq<SourceSpan> {
    match n {
        NodeV::Mapping { entries, .. } => entries_c(x, entries, entries.len() as int),
        NodeV::Sequence { items, .. } => seqitems_c(x, items, items.len() as int),
        NodeV::Leaf(l) => leaf_c(x, Some(l)),
        NodeV::Tag { name, span, value } => (match x.target {
            RefTargetV::TypeLike(n) => if name == n {
                match tag_span(utf8(x.f.text), x.f.file_id, span) {
                    Some(sp) => seq![sp],
                    None => seq![],
                }
            } else {
                seq![]
            },
            _ => seq![],
        }) + leaf_c(x, value),
        _ => seq![],
    }
}

pub open spec fn item_c(x: FileCtx, i: DocItemV) -> Seq<SourceSpan> {
    match i {
        DocItemV::Directive { name, span, value } => dir_c(x, name, span, value),
        DocItemV::Let { name, span, value_span } => let_c(x, name, span, value_span),
        DocItemV::Node(n) => node_c(x, n),
        DocItemV::Comment { .. } => seq![],
    }
}

pub open spec fn items_c(x: FileCtx, items: Seq<DocItemV>, k: int) -> Seq<SourceSpan>
    decreases k,
{
    if k <= 0 {
        seq![]
    } else {
        items_c(x, items, k - 1) + item_c(x, items[k - 1])
    }
}

pub open spec fn docs_c(x: FileCtx, docs: Seq<DocV>, k: int) -> Seq<SourceSpan>
    decreases k,
{
    if k <= 0 {
        seq![]
    } else {
        docs_c(x, docs, k - 1) + items_c(x, docs[k - 1].items, docs[k - 1].items.len() as int)
    }
}

/// Each `!name` of the text from `start` on that stands alone, at its name.
pub open spec fn tag_occ(f: FileV, n: Seq<u8>, start: int) -> Seq<SourceSpan>
    decreases utf8(f.text).len() - start,
{
    let b = utf8(f.text);
    let nd = seq![0x21u8] + n;
    if start < 0 || start > b.len() {
        seq![]
    } else {
        match find_pat(b, start, b.len() as int, nd) {
            None => seq![],
            Some(p) => {
                let after = p + nd.len();
                let ok = (p == 0 || !is_ident_byte(b[p - 1])) && (after >= b.len() || !is_ident_byte(b[after]));
                (if ok {
                    seq![at(f.file_id, p + 1, p + 1 + n.len())]
                } else {
                    seq![]
                }) + (if start < after <= b.len() {
                    tag_occ(f, n, after)
                } else {
                    seq![]
                })
            },
        }
    }
}

/// Every span of file `f` that names the target.
pub open spec fn file_spans(x: FileCtx) -> Seq<SourceSpan> {
    docs_c(x, docs_of(x.f), docs_of(x.f).len() as int) + match x.target {
        RefTargetV::TypeLike(n) => tag_occ(x.f, n, 0),
        _ => seq![],
    }
}

/// The locations of the first `k` spans of `ss` in file `f`, where they convert.
pub open spec fn spans_locs(f: FileV, ss: Seq<SourceSpan>, k: int) -> Seq<LocV>
    decreases k,
{
    if k <= 0 {
        seq![]
    } else {
        spans_locs(f, ss, k - 1) + loc_at(f, ss[k - 1])
    }
}

/// Every place of file `f` that names the target.
pub open spec fn file_c(x: FileCtx) -> Seq<LocV> {
    spans_locs(x.f, file_spans(x), file_spans(x).len() as int)
}

// ---------------------------------------------------------------------------
// Finding the target

/// The symbol whose references are sought, with its texts as bytes.
pub enum RefTarget {
    Let(String, Vec<u8>),
    Alias(String, Vec<u8>),
    Import(String),
    TypeLike(Vec<u8>),
    KeyPath(String, Vec<u8>),
}

impl RefTarget {
    pub open spec fn view_target(&self) -> RefTargetV {
        match self {
            RefTarget::Let(u, n) => RefTargetV::Let(u@, n@),
            RefTarget::Alias(u, n) => RefTargetV::Alias(u@, n@),
            RefTarget::Import(u) => RefTargetV::Import(u@),
            RefTarget::TypeLike(n) => RefTargetV::TypeLike(n@),
            RefTarget::KeyPath(u, p) => RefTargetV::KeyPath(u@, p@),
        }
    }
}

pub open spec fn opt_target(t: Option<RefTarget>) -> Option<RefTargetV> {
    match t {
        Some(x) => Some(x.view_target()),
        None => None,
    }
}

pub open spec fn byte_views(v: Seq<Vec<u8>>) -> Seq<Seq<u8>> {
    v.map_values(|x: Vec<u8>| x@)
}

pub(crate) fn count_dots_exec(b: &[u8], lo: usize, hi: usize) -> (r: usize)
    requires
        lo <= hi <= b@.len(),
    ensures
        r == count_dots(b@, lo as int, hi as int),
{
    let mut n: usize = 0;
    let mut k: usize = lo;
    while k < hi
        invariant
            lo <= k <= hi <= b@.len(),
            n == count_dots(b@, lo as int, k as int),
            n <= k - lo,
        decreases hi - k,
    {
        if b[k] == 0x2e {
            n = n + 1;
        }
        k = k + 1;
    }
    n
}

fn push_joined(out: &mut Vec<u8>, segs: &Vec<Vec<u8>>, a: usize, b: usize)
    requires
        a <= b <= segs@.len(),
    ensures
        final(out)@ == old(out)@ + joined(byte_views(segs@), a as int, b as int),
{
    let ghost sv = byte_views(segs@);
    let mut k: usize = a;
    assert(old(out)@ =~= old(out)@ + joined(sv, a as int, a as int));
    while k < b
        invariant
            a <= k <= b <= segs@.len(),
            sv == byte_views(segs@),
            out@ == old(out)@ + joined(sv, a as int, k as int),
        decreases b - k,
    {
        out.push(0x2e);
        let seg = segs[k].as_slice();
        crate::text::push_range(out, seg, 0, seg.len());
        assert(seg@.subrange(0, seg@.len() as int) =~= sv[k as int]);
        assert(out@ =~= old(out)@ + joined(sv, a as int, k + 1));
        k = k + 1;
    }
}

/// `static_r` for the file with this URI, text and id, whose definitions are `defs`.
fn static_r_exec(
    uri: &str,
    text: &str,
    file_id: FileId,
    defs: &Vec<Definition>,
    folders: &[String],
    config: &LumalsConfig,
    ident: &[u8],
    depth: u32,
) -> (r: Option<(String, Vec<String>)>)
    requires
        defs_view(defs@) == defs_of(FileV { uri: uri@, text: text@, file_id }),
    ensures
        match static_r(FileV { uri: uri@, text: text@, file_id }, strings_view(folders@), *config, ident@, depth as int) {
            Some((u, pre)) => r matches Some((x, y)) && x@ == u && strs(y@) == pre,
            None => r is None,
        },
    decreases config.max_resolve_depth - depth,
{
    if depth >= config.max_resolve_depth {
        return None;
    }
    if let Some(i) = first_def_exec(defs, DefinitionKind::Alias, ident) {
        match &defs[i].detail {
            Some(t) => {
                proof {
                    vstd::utf8::encode_utf8_decode_utf8(t@);
                }
                return match resolve_guarded_import(uri, t.as_str(), folders, config) {
                    Ok(u) => {
                        let pre: Vec<String> = Vec::new();
                        assert(strs(pre@) =~= Seq::<Seq<u8>>::empty());
                        Some((u, pre))
                    },
                    Err(_) => None,
                };
            },
            None => return None,
        }
    }
    let i = match first_def_exec(defs, DefinitionKind::Let, ident) {
        Some(i) => i,
        None => return None,
    };
    let det = match &defs[i].detail {
        Some(d) => d,
        None => return None,
    };
    let (s, e) = match parse_range_exec(det.as_str().as_bytes()) {
        Some(x) => x,
        None => return None,
    };
    let vt = match value_text_exec(uri, text, file_id, s, e) {
        Some(v) => v,
        None => return None,
    };
    let path = match static_path_exec(vt.as_slice()) {
        Some(p) => p,
        None => return None,
    };
    let ghost segs = path.view_path();
    let first = path.segments[0].as_str().as_bytes();
    assert(first@ == segs[0]);
    match static_r_exec(uri, text, file_id, defs, folders, config, first, depth + 1) {
        None => None,
        Some((u, pre)) => {
            let mut out = pre;
            let ghost start = strs(out@);
            let mut k: usize = 1;
            while k < path.segments.len()
                invariant
                    1 <= k <= path.segments@.len(),
                    segs == path.view_path(),
                    strs(out@) == start + segs.subrange(1, k as int),
                decreases path.segments@.len() - k,
            {
                let ghost prev = out@;
                out.push(path.segments[k].clone());
                assert(strs(out@) =~= strs(prev).push(segs[k as int]));
                assert(segs.subrange(1, k + 1) =~= segs.subrange(1, k as int).push(segs[k as int]));
                k = k + 1;
            }
            assert(segs.subrange(1, segs.len() as int) =~= segs.drop_first());
            Some((u, out))
        },
    }
}

pub(crate) fn key_path_via_exec(
    uri: &str,
    text: &str,
    file_id: FileId,
    defs: &Vec<Definition>,
    folders: &[String],
    config: &LumalsConfig,
    segs: &Vec<Vec<u8>>,
    k: usize,
) -> (r: Option<(String, Vec<u8>)>)
    requires
        defs_view(defs@) == defs_of(FileV { uri: uri@, text: text@, file_id }),
        1 <= k <= segs@.len(),
    ensures
        match key_path_via(FileV { uri: uri@, text: text@, file_id }, strings_view(folders@), *config, byte_views(segs@), k as int) {
            Some((u, p)) => r matches Some((x, y)) && x@ == u && y@ == p,
            None => r is None,
        },
{
    assert(byte_views(segs@)[0] == segs@[0]@);
    match static_r_exec(uri, text, file_id, defs, folders, config, segs[0].as_slice(), 0) {
        None => None,
        Some((u, pre)) => {
            let mut p = dotted_exec(&pre);
            push_joined(&mut p, segs, 1, k);
            Some((u, p))
        },
    }
}

pub(crate) fn path_bytes(path: &IdentifierPath) -> (r: Vec<Vec<u8>>)
    ensures
        byte_views(r@) == path.view_path(),
{
    let mut out: Vec<Vec<u8>> = Vec::new();
    let mut k: usize = 0;
    while k < path.segments.len()
        invariant
            k <= path.segments@.len(),
            byte_views(out@) == path.view_path().subrange(0, k as int),
        decreases path.segments@.len() - k,
    {
        let ghost prev = out@;
        out.push(crate::goto::bytes_of(path.segments[k].as_str()));
        assert(byte_views(out@) =~= byte_views(prev).push(path.view_path()[k as int]));
        assert(path.view_path().subrange(0, k + 1) =~= path.view_path().subrange(0, k as int).push(path.view_path()[k as int]));
        k = k + 1;
    }
    assert(path.view_path().subrange(0, k as int) =~= path.view_path());
    out
}

/// The current file of a request, parsed.
pub(crate) struct Current<'a> {
    pub(crate) entry: Entry,
    pub(crate) source: &'a SourceText,
    pub(crate) offset: usize,
    pub(crate) folders: &'a [String],
    pub(crate) config: &'a LumalsConfig,
}

pub(crate) open spec fn current_ok(cx: Current, c: RefCtx) -> bool {
    &&& entry_ok(cx.entry, c.cur)
    &&& cx.source.bytes() == norm_of(c.cur)
    &&& cx.source.file_id == c.cur.file_id
    &&& c.offset == cx.offset as int
    &&& c.folders == strings_view(cx.folders@)
    &&& c.config == *cx.config
}

fn resolve_exec(cx: &Current, segs: &Vec<Vec<u8>>, sel: usize, Ghost(c): Ghost<RefCtx>) -> (r: Option<RefTarget>)
    requires
        current_ok(*cx, c),
        segs@.len() > 0,
    ensures
        opt_target(r) == resolve_r(c, byte_views(segs@), sel as int),
{
    let ghost sv = byte_views(segs@);
    let e = &cx.entry;
    let base = segs[0].as_slice();
    assert(sv[0] == base@);
    let u = e.uri.as_str();
    if sel == 0 {
        if first_def_exec(&e.defs, DefinitionKind::Alias, base).is_some() {
            return Some(RefTarget::Alias(e.uri.clone(), segs[0].clone()));
        }
        if first_def_exec(&e.defs, DefinitionKind::Let, base).is_some() {
            return Some(RefTarget::Let(e.uri.clone(), segs[0].clone()));
        }
        if segs.len() == 1 {
            if let Some(i) = first_def_exec(&e.defs, DefinitionKind::Key, base) {
                let t = e.defs[i].path.to_text();
                return Some(RefTarget::KeyPath(e.uri.clone(), crate::goto::bytes_of(t.as_str())));
            }
        }
    }
    let k = if sel < segs.len() - 1 { sel + 1 } else { segs.len() };
    match key_path_via_exec(u, e.text.as_str(), e.file_id, &e.defs, cx.folders, cx.config, segs, k) {
        Some((x, p)) => Some(RefTarget::KeyPath(x, p)),
        None => None,
    }
}

fn path_t_exec(cx: &Current, span: SourceSpan, Ghost(c): Ghost<RefCtx>) -> (r: Option<RefTarget>)
    requires
        current_ok(*cx, c),
    ensures
        opt_target(r) == path_t(c, span),
{
    let ghost norm = norm_of(c.cur);
    match identifier_path_at_span(span, cx.offset, cx.source) {
        Some((ps, p)) => {
            proof {
                let t = source_slice(norm, c.cur.file_id, span)->Some_0;
                let rel = c.offset - span.start;
                crate::navigation::lemma_path_start(t, rel);
            }
            let segs = path_bytes(&p);
            let b = cx.source.text.as_str().as_bytes();
            let sel = count_dots_exec(b, ps.start, cx.offset);
            resolve_exec(cx, &segs, sel, Ghost(c))
        },
        None => None,
    }
}

fn dir_t_exec(cx: &Current, name: &str, span: SourceSpan, value: &Option<String>, Ghost(c): Ghost<RefCtx>) -> (r: Option<RefTarget>)
    requires
        current_ok(*cx, c),
    ensures
        opt_target(r) == dir_t(c, utf8(name@), span, crate::ast::opt_text(*value)),
{
    let off = cx.offset;
    let on_target = match crate::navigation::target_span_exec(cx.source, span, value) {
        Some(ps) => ps.start <= off && off < ps.end,
        None => false,
    };
    if crate::navigation::is_import_like(name) && on_target {
        return match crate::navigation::target_of_exec(value) {
            Some(t) => {
                proof {
                    vstd::utf8::encode_utf8_decode_utf8(t@);
                }
                match resolve_guarded_import(cx.entry.uri.as_str(), t.as_str(), cx.folders, cx.config) {
                    Ok(u) => Some(RefTarget::Import(u)),
                    Err(_) => None,
                }
            },
            None => None,
        };
    }
    let nb = name.as_bytes();
    let schema = crate::goto::bytes_of("@schema");
    let profile = crate::goto::bytes_of("@profile");
    let on_value = match value_span_exec(cx.source, span, value) {
        Some(vs) => vs.start <= off && off < vs.end,
        None => false,
    };
    if (bytes_eq(nb, schema.as_slice()) || bytes_eq(nb, profile.as_slice())) && on_value {
        return match value {
            Some(v) => Some(RefTarget::TypeLike(normalized_name_exec(v.as_str().as_bytes()))),
            None => None,
        };
    }
    None
}

fn let_t_exec(
    cx: &Current,
    name: &str,
    span: SourceSpan,
    value_span: Option<SourceSpan>,
    Ghost(c): Ghost<RefCtx>,
) -> (r: Option<RefTarget>)
    requires
        current_ok(*cx, c),
    ensures
        opt_target(r) == let_t(c, utf8(name@), span, value_span),
{
    let nb = name.as_bytes();
    let s = span.start;
    let off = cx.offset;
    if s <= usize::MAX - 4 && nb.len() <= usize::MAX - 4 - s && span.end >= s + 4 + nb.len() && s + 4 <= off
        && off < s + 4 + nb.len() {
        return Some(RefTarget::Let(cx.entry.uri.clone(), crate::goto::bytes_of(name)));
    }
    match value_span {
        Some(vs) => {
            if !(vs.start <= off && off < vs.end) {
                return None;
            }
            match crate::navigation::trimmed_span_exec(cx.source, vs) {
                Some(ts) => path_t_exec(cx, ts, Ghost(c)),
                None => None,
            }
        },
        None => None,
    }
}

fn leaf_t_exec(cx: &Current, value: &Option<Box<Node>>, Ghost(c): Ghost<RefCtx>) -> (r: Option<RefTarget>)
    requires
        current_ok(*cx, c),
    ensures
        opt_target(r) == leaf_t(c, crate::ast::opt_leaf(*value)),
{
    match value {
        Some(n) => match &**n {
            Node::Scalar(sc) => {
                if sc.kind == ScalarKind::LuaExpression {
                    path_t_exec(cx, sc.span, Ghost(c))
                } else {
                    None
                }
            },
            _ => None,
        },
        None => None,
    }
}

pub(crate) fn key_def_at_exec(defs: &Vec<Definition>, span: SourceSpan) -> (r: Option<usize>)
    ensures
        match key_def_at(defs_view(defs@), span, 0) {
            Some(d) => r matches Some(i) && i < defs@.len() && defs@[i as int].view_def() == d,
            None => r is None,
        },
{
    let ghost dv = defs_view(defs@);
    let mut i: usize = 0;
    while i < defs.len()
        invariant
            i <= defs@.len(),
            dv == defs_view(defs@),
            key_def_at(dv, span, i as int) == key_def_at(dv, span, 0),
        decreases defs@.len() - i,
    {
        assert(dv[i as int] == defs@[i as int].view_def());
        if defs[i].kind == DefinitionKind::Key && defs[i].selection_span == span {
            return Some(i);
        }
        i = i + 1;
    }
    None
}

pub(crate) fn key_target_exec(uri: &String, d: &Definition) -> (r: RefTarget)
    ensures
        r.view_target() == key_target(uri@, d.view_def()),
{
    let t = d.path.to_text();
    RefTarget::KeyPath(uri.clone(), crate::goto::bytes_of(t.as_str()))
}

fn entry_t_exec(cx: &Current, e: &MappingEntry, Ghost(c): Ghost<RefCtx>) -> (r: (bool, Option<RefTarget>))
    requires
        current_ok(*cx, c),
    ensures
        ({
            let ev = e.view_entry();
            let norm = norm_of(c.cur);
            let fid = c.cur.file_id;
            if contains(ev.key_span, c.offset) && key_def_at(defs_of(c.cur), ev.key_span, 0) is Some {
                r.0 && opt_target(r.1) == Some(key_target(c.cur.uri, key_def_at(defs_of(c.cur), ev.key_span, 0)->Some_0))
            } else if opt_contains(metadata_span(norm, fid, ev), c.offset) {
                r.0 && opt_target(r.1) == (match source_slice(norm, fid, metadata_span(norm, fid, ev)->Some_0) {
                    Some(m) => Some(RefTargetV::TypeLike(m)),
                    None => None,
                })
            } else {
                r.0 == (leaf_t(c, ev.value) is Some) && opt_target(r.1) == leaf_t(c, ev.value)
            }
        }),
{
    let off = cx.offset;
    if e.key_span.start <= off && off < e.key_span.end {
        if let Some(i) = key_def_at_exec(&cx.entry.defs, e.key_span) {
            return (true, Some(key_target_exec(&cx.entry.uri, &cx.entry.defs[i])));
        }
    }
    let b = cx.source.text.as_str().as_bytes();
    if let Some(ms) = crate::outline::metadata_span_exec(b, cx.source.file_id, e) {
        if ms.start <= off && off < ms.end {
            return match cx.source.slice(ms) {
                Some(m) => (true, Some(RefTarget::TypeLike(crate::goto::bytes_of(m)))),
                None => (true, None),
            };
        }
    }
    let v = leaf_t_exec(cx, &e.value, Ghost(c));
    (v.is_some(), v)
}

fn node_t_exec(cx: &Current, node: &Node, Ghost(c): Ghost<RefCtx>) -> (r: Option<RefTarget>)
    requires
        current_ok(*cx, c),
    ensures
        opt_target(r) == node_t(c, node.view_node()),
{
    match node {
        Node::Mapping(m) => {
            let ghost es = m.entries@.map_values(|e: MappingEntry| e.view_entry());
            let mut i: usize = 0;
            while i < m.entries.len()
                invariant
                    current_ok(*cx, c),
                    i <= m.entries@.len(),
                    es == m.entries@.map_values(|e: MappingEntry| e.view_entry()),
                    node.view_node() == (NodeV::Mapping { span: m.span, entries: es }),
                    entries_t(c, es, i as int) == entries_t(c, es, 0),
                decreases m.entries@.len() - i,
            {
                assert(es[i as int] == m.entries@[i as int].view_entry());
                let (done, v) = entry_t_exec(cx, &m.entries[i], Ghost(c));
                if done {
                    return v;
                }
                i = i + 1;
            }
            None
        },
        Node::Sequence(q) => {
            let ghost its = q.items@.map_values(|i: crate::ast::SequenceItem| i.view_item());
            let mut i: usize = 0;
            while i < q.items.len()
                invariant
                    current_ok(*cx, c),
                    i <= q.items@.len(),
                    its == q.items@.map_values(|i: crate::ast::SequenceItem| i.view_item()),
                    seq_t(c, its, i as int) == seq_t(c, its, 0),
                    node.view_node() == (NodeV::Sequence { span: q.span, items: its }),
                decreases q.items@.len() - i,
            {
                assert(its[i as int] == q.items@[i as int].view_item());
                let v = leaf_t_exec(cx, &q.items[i].value, Ghost(c));
                if v.is_some() {
                    return v;
                }
                i = i + 1;
            }
            None
        },
        Node::Scalar(sc) => {
            if sc.kind == ScalarKind::LuaExpression {
                path_t_exec(cx, sc.span, Ghost(c))
            } else {
                None
            }
        },
        Node::Tag(t) => {
            let b = cx.source.text.as_str().as_bytes();
            if let Some(ts) = crate::outline::tag_span_exec(b, cx.source.file_id, t.span) {
                if ts.start <= cx.offset && cx.offset < ts.end {
                    return Some(RefTarget::TypeLike(crate::goto::bytes_of(t.name.as_str())));
                }
            }
            leaf_t_exec(cx, &t.value, Ghost(c))
        },
        _ => None,
    }
}

fn item_t_exec(cx: &Current, item: &DocumentItem, Ghost(c): Ghost<RefCtx>) -> (r: Option<RefTarget>)
    requires
        current_ok(*cx, c),
    ensures
        opt_target(r) == item_t(c, item.view_item()),
{
    match item {
        DocumentItem::Directive(d) => dir_t_exec(cx, d.name.as_str(), d.span, &d.value, Ghost(c)),
        DocumentItem::Let(l) => let_t_exec(cx, l.name.as_str(), l.span, l.value_span, Ghost(c)),
        DocumentItem::Node(n) => node_t_exec(cx, n, Ghost(c)),
        DocumentItem::Comment(_) => None,
    }
}

fn docs_t_exec(cx: &Current, documents: &Vec<Document>, Ghost(c): Ghost<RefCtx>) -> (r: Option<RefTarget>)
    requires
        current_ok(*cx, c),
    ensures
        opt_target(r) == docs_t(c, documents@.map_values(|d: Document| d.view_doc()), 0),
{
    let ghost docs = documents@.map_values(|d: Document| d.view_doc());
    let mut d: usize = 0;
    while d < documents.len()
        invariant
            current_ok(*cx, c),
            d <= documents@.len(),
            docs == documents@.map_values(|d: Document| d.view_doc()),
            docs_t(c, docs, d as int) == docs_t(c, docs, 0),
        decreases documents@.len() - d,
    {
        let doc = &documents[d];
        let ghost items = doc.view_doc().items;
        assert(docs[d as int] == doc.view_doc());
        let mut i: usize = 0;
        while i < doc.items.len()
            invariant
                current_ok(*cx, c),
                i <= doc.items@.len(),
                items == doc.view_doc().items,
                items.len() == doc.items@.len(),
                items_t(c, items, i as int) == items_t(c, items, 0),
                docs == documents@.map_values(|d: Document| d.view_doc()),
                d < docs.len(),
                docs[d as int].items == items,
                docs_t(c, docs, d as int) == docs_t(c, docs, 0),
            decreases doc.items@.len() - i,
        {
            assert(items[i as int] == doc.items@[i as int].view_item());
            let r = item_t_exec(cx, &doc.items[i], Ghost(c));
            if r.is_some() {
                return r;
            }
            i = i + 1;
        }
        d = d + 1;
    }
    None
}

pub(crate) fn key_at_exec(defs: &Vec<Definition>, offset: usize) -> (r: Option<usize>)
    ensures
        match key_at(defs_view(defs@), offset as int, 0) {
            Some(d) => r matches Some(i) && i < defs@.len() && defs@[i as int].view_def() == d,
            None => r is None,
        },
{
    let ghost dv = defs_view(defs@);
    let mut i: usize = 0;
    while i < defs.len()
        invariant
            i <= defs@.len(),
            dv == defs_view(defs@),
            key_at(dv, offset as int, i as int) == key_at(dv, offset as int, 0),
        decreases defs@.len() - i,
    {
        assert(dv[i as int] == defs@[i as int].view_def());
        let sp = defs[i].selection_span;
        if defs[i].kind == DefinitionKind::Key && sp.start <= offset && offset < sp.end {
            return Some(i);
        }
        i = i + 1;
    }
    None
}

fn ref_target_exec(cx: &Current, documents: &Vec<Document>, Ghost(c): Ghost<RefCtx>) -> (r: Option<RefTarget>)
    requires
        current_ok(*cx, c),
        documents@.map_values(|d: Document| d.view_doc()) == docs_of(c.cur),
    ensures
        opt_target(r) == ref_target(c),
{
    match key_at_exec(&cx.entry.defs, cx.offset) {
        Some(i) => Some(key_target_exec(&cx.entry.uri, &cx.entry.defs[i])),
        None => docs_t_exec(cx, documents, Ghost(c)),
    }
}

// ---------------------------------------------------------------------------
// Collecting in one file

/// A file being searched: its entry, its raw text as a source, and the target.
pub(crate) struct Scan<'a> {
    pub(crate) entry: &'a Entry,
    pub(crate) source: SourceText,
    pub(crate) target: &'a RefTarget,
    pub(crate) folders: &'a [String],
    pub(crate) config: &'a LumalsConfig,
}

pub(crate) open spec fn scan_ok(sc: Scan, x: FileCtx) -> bool {
    &&& entry_ok(*sc.entry, x.f)
    &&& sc.source.bytes() == utf8(x.f.text)
    &&& sc.source.file_id == x.f.file_id
    &&& sc.target.view_target() == x.target
    &&& x.folders == strings_view(sc.folders@)
    &&& x.config == *sc.config
    &&& lexable(x.f)
}

fn loc_at_exec(out: &mut Vec<Location>, sc: &Scan, span: SourceSpan, Ghost(x): Ghost<FileCtx>)
    requires
        scan_ok(*sc, x),
    ensures
        locs_view(final(out)@) == locs_view(old(out)@) + loc_at(x.f, span),
{
    match span_range_exec(sc.entry.text.as_str(), span) {
        Some(r) => {
            push_loc(out, Location { uri: sc.entry.uri.clone(), range: r });
            assert(locs_view(out@) =~= locs_view(old(out)@) + loc_at(x.f, span));
        },
        None => {
            assert(locs_view(out@) =~= locs_view(old(out)@) + loc_at(x.f, span));
        },
    }
}

fn seg_c_exec(out: &mut Vec<SourceSpan>, sc: &Scan, segs: &Vec<Vec<u8>>, k: usize, span: SourceSpan, Ghost(x): Ghost<FileCtx>)
    requires
        scan_ok(*sc, x),
        k < segs@.len(),
    ensures
        final(out)@ == old(out)@ + seg_c(x, byte_views(segs@), k as int, span),
{
    let ghost sv = byte_views(segs@);
    assert(sv[0] == segs@[0]@);
    let e = sc.entry;
    let hit = match sc.target {
        RefTarget::Let(u, n) => str_eq(e.uri.as_str(), u.as_str()) && bytes_eq(segs[0].as_slice(), n.as_slice()) && k == 0,
        RefTarget::Alias(u, n) => str_eq(e.uri.as_str(), u.as_str()) && bytes_eq(segs[0].as_slice(), n.as_slice()) && k == 0,
        RefTarget::KeyPath(u, p) => {
            let n = segs.len();
            if k == 0 || k >= n {
                false
            } else {
                match key_path_via_exec(e.uri.as_str(), e.text.as_str(), e.file_id, &e.defs, sc.folders, sc.config, segs, k + 1) {
                    Some((a, b)) => str_eq(a.as_str(), u.as_str()) && bytes_eq(b.as_slice(), p.as_slice()),
                    None => false,
                }
            }
        },
        _ => false,
    };
    if hit {
        push_span(out, span);
    } else {
        assert(out@ =~= old(out)@ + seg_c(x, sv, k as int, span));
    }
}

proof fn lemma_run_end(t: Seq<u8>, i: int)
    requires
        0 <= i <= t.len(),
    ensures
        i <= run_end(t, i) <= t.len(),
        forall|j: int| i <= j < run_end(t, i) ==> t[j] != 0x2e,
    decreases t.len() - i,
{
    if i < t.len() && t[i] != 0x2e {
        lemma_run_end(t, i + 1);
    }
}

pub open spec fn pairs_view(v: Seq<(usize, usize)>) -> Seq<(int, int)> {
    v.map_values(|p: (usize, usize)| (p.0 as int, p.1 as int))
}

pub(crate) fn runs_exec(t: &[u8]) -> (r: Vec<(usize, usize)>)
    ensures
        pairs_view(r@) == runs(t@, 0),
        forall|k: int| 0 <= k < r@.len() ==> (#[trigger] r@[k]).0 < r@[k].1 <= t@.len(),
{
    let mut out: Vec<(usize, usize)> = Vec::new();
    let mut i: usize = 0;
    while i < t.len()
        invariant
            i <= t@.len(),
            runs(t@, 0) == pairs_view(out@) + runs(t@, i as int),
            forall|k: int| 0 <= k < out@.len() ==> (#[trigger] out@[k]).0 < out@[k].1 <= t@.len(),
        decreases t@.len() - i,
    {
        if t[i] == 0x2e {
            i = i + 1;
        } else {
            let mut e = i;
            while e < t.len() && t[e] != 0x2e
                invariant
                    i <= e <= t@.len(),
                    run_end(t@, e as int) == run_end(t@, i as int),
                decreases t@.len() - e,
            {
                e = e + 1;
            }
            proof {
                lemma_run_end(t@, i as int);
            }
            assert(e as int == run_end(t@, i as int));
            let ghost prev = out@;
            out.push((i, e));
            assert(pairs_view(out@) =~= pairs_view(prev).push((i as int, e as int)));
            assert(runs(t@, i as int) == seq![(i as int, e as int)] + runs(t@, e as int));
            assert(runs(t@, 0) =~= pairs_view(out@) + runs(t@, e as int));
            i = e;
        }
    }
    assert(pairs_view(out@) + runs(t@, i as int) =~= pairs_view(out@));
    out
}

fn run_texts_exec(t: &[u8], rs: &Vec<(usize, usize)>) -> (r: Vec<Vec<u8>>)
    requires
        forall|k: int| 0 <= k < rs@.len() ==> (#[trigger] rs@[k]).0 < rs@[k].1 <= t@.len(),
    ensures
        byte_views(r@) == run_texts(t@, pairs_view(rs@)),
        r@.len() == rs@.len(),
{
    let ghost want = run_texts(t@, pairs_view(rs@));
    let mut out: Vec<Vec<u8>> = Vec::new();
    let mut k: usize = 0;
    while k < rs.len()
        invariant
            k <= rs@.len(),
            forall|j: int| 0 <= j < rs@.len() ==> (#[trigger] rs@[j]).0 < rs@[j].1 <= t@.len(),
            want == run_texts(t@, pairs_view(rs@)),
            byte_views(out@) == want.subrange(0, k as int),
        decreases rs@.len() - k,
    {
        let (a, b) = rs[k];
        let ghost prev = out@;
        out.push(vstd::slice::slice_to_vec(vstd::slice::slice_subrange(t, a, b)));
        assert(want[k as int] == t@.subrange(a as int, b as int));
        assert(byte_views(out@) =~= byte_views(prev).push(want[k as int]));
        assert(want.subrange(0, k + 1) =~= want.subrange(0, k as int).push(want[k as int]));
        k = k + 1;
    }
    assert(want.subrange(0, k as int) =~= want);
    out
}

fn token_c_exec(out: &mut Vec<SourceSpan>, sc: &Scan, tok: &[u8], base: usize, Ghost(x): Ghost<FileCtx>)
    requires
        scan_ok(*sc, x),
        base + tok@.len() <= usize::MAX,
    ensures
        final(out)@ == old(out)@ + segs_c(x, tok@, base as int, runs(tok@, 0).len() as int),
{
    let rs = runs_exec(tok);
    let segs = run_texts_exec(tok, &rs);
    let ghost rv = runs(tok@, 0);
    let ghost sv = run_texts(tok@, rv);
    let ghost start = out@;
    let fid = sc.source.file_id;
    let mut k: usize = 0;
    while k < rs.len()
        invariant
            scan_ok(*sc, x),
            fid == x.f.file_id,
            base + tok@.len() <= usize::MAX,
            k <= rs@.len(),
            rv == runs(tok@, 0),
            pairs_view(rs@) == rv,
            sv == run_texts(tok@, rv),
            byte_views(segs@) == sv,
            segs@.len() == rs@.len(),
            forall|j: int| 0 <= j < rs@.len() ==> (#[trigger] rs@[j]).0 < rs@[j].1 <= tok@.len(),
            out@ == start + segs_c(x, tok@, base as int, k as int),
        decreases rs@.len() - k,
    {
        let (a, b) = rs[k];
        assert(rv[k as int] == (a as int, b as int));
        let span = SourceSpan::new(fid, base + a, base + b);
        assert(span == at(x.f.file_id, base + rv[k as int].0, base + rv[k as int].1));
        seg_c_exec(out, sc, &segs, k, span, Ghost(x));
        assert(out@ =~= start + segs_c(x, tok@, base as int, k + 1));
        k = k + 1;
    }
}

fn scan_c_exec(out: &mut Vec<SourceSpan>, sc: &Scan, t: &[u8], base: usize, Ghost(x): Ghost<FileCtx>)
    requires
        scan_ok(*sc, x),
        base + t@.len() <= usize::MAX,
    ensures
        final(out)@ == old(out)@ + scan_c(x, t@, base as int, 0),
{
    let ghost start = out@;
    let mut i: usize = 0;
    while i < t.len()
        invariant
            scan_ok(*sc, x),
            base + t@.len() <= usize::MAX,
            i <= t@.len(),
            start + scan_c(x, t@, base as int, 0) == out@ + scan_c(x, t@, base as int, i as int),
        decreases t@.len() - i,
    {
        if !crate::navigation::is_ident_byte_exec(t[i]) {
            i = i + 1;
        } else {
            let mut e = i + 1;
            while e < t.len() && (crate::navigation::is_ident_byte_exec(t[e]) || t[e] == 0x2e)
                invariant
                    i + 1 <= e <= t@.len(),
                    path_end(t@, e as int) == path_end(t@, i + 1),
                decreases t@.len() - e,
            {
                e = e + 1;
            }
            proof {
                crate::navigation::lemma_path_end(t@, i + 1);
            }
            assert(e as int == path_end(t@, i + 1));
            let tok = vstd::slice::slice_subrange(t, i, e);
            let ghost before = out@;
            token_c_exec(out, sc, tok, base + i, Ghost(x));
            assert(scan_c(x, t@, base as int, i as int) == segs_c(x, tok@, base + i, runs(tok@, 0).len() as int) + scan_c(x, t@, base as int, e as int));
            assert(start + scan_c(x, t@, base as int, 0) =~= out@ + scan_c(x, t@, base as int, e as int));
            i = e;
        }
    }
    assert(out@ + scan_c(x, t@, base as int, i as int) =~= out@);
}

fn expr_c_exec(out: &mut Vec<SourceSpan>, sc: &Scan, span: SourceSpan, Ghost(x): Ghost<FileCtx>)
    requires
        scan_ok(*sc, x),
    ensures
        final(out)@ == old(out)@ + expr_c(x, span),
{
    match sc.source.slice(span) {
        Some(t) => {
            scan_c_exec(out, sc, t.as_bytes(), span.start, Ghost(x));
        },
        None => {
            assert(out@ =~= old(out)@ + expr_c(x, span));
        },
    }
}

fn dir_c_exec(out: &mut Vec<SourceSpan>, sc: &Scan, name: &str, span: SourceSpan, value: &Option<String>, Ghost(x): Ghost<FileCtx>)
    requires
        scan_ok(*sc, x),
    ensures
        final(out)@ == old(out)@ + dir_c(x, utf8(name@), span, crate::ast::opt_text(*value)),
{
    let ghost want = dir_c(x, utf8(name@), span, crate::ast::opt_text(*value));
    let e = sc.entry;
    let mut found: Option<SourceSpan> = None;
    match sc.target {
        RefTarget::Alias(u, n) => {
            if str_eq(e.uri.as_str(), u.as_str()) {
                if let Some(sp) = crate::navigation::alias_span_exec(&sc.source, name, span, value) {
                    if let Some(m) = sc.source.slice(sp) {
                        if bytes_eq(m.as_bytes(), n.as_slice()) {
                            found = Some(sp);
                        }
                    }
                }
            }
        },
        RefTarget::Import(u) => {
            if crate::navigation::is_import_like(name) {
                if let Some(t) = crate::navigation::target_of_exec(value) {
                    proof {
                        vstd::utf8::encode_utf8_decode_utf8(t@);
                    }
                    if let Ok(r) = resolve_guarded_import(e.uri.as_str(), t.as_str(), sc.folders, sc.config) {
                        if str_eq(r.as_str(), u.as_str()) {
                            found = crate::navigation::target_span_exec(&sc.source, span, value);
                        }
                    }
                }
            }
        },
        RefTarget::TypeLike(n) => {
            let nb = name.as_bytes();
            let schema = crate::goto::bytes_of("@schema");
            let profile = crate::goto::bytes_of("@profile");
            if bytes_eq(nb, schema.as_slice()) || bytes_eq(nb, profile.as_slice()) {
                if let Some(v) = value {
                    let nv = normalized_name_exec(v.as_str().as_bytes());
                    if bytes_eq(nv.as_slice(), n.as_slice()) {
                        found = value_span_exec(&sc.source, span, value);
                    }
                }
            }
        },
        _ => {},
    }
    match found {
        Some(sp) => {
            assert(want == seq![sp]);
            push_span(out, sp);
        },
        None => {
            assert(want == Seq::<SourceSpan>::empty());
            assert(out@ =~= old(out)@ + want);
        },
    }
}

fn let_c_exec(out: &mut Vec<SourceSpan>, sc: &Scan, name: &str, span: SourceSpan, value_span: Option<SourceSpan>, Ghost(x): Ghost<FileCtx>)
    requires
        scan_ok(*sc, x),
    ensures
        final(out)@ == old(out)@ + let_c(x, utf8(name@), span, value_span),
{
    let ghost start = out@;
    let nb = name.as_bytes();
    let s = span.start;
    let own = match sc.target {
        RefTarget::Let(u, n) => str_eq(sc.entry.uri.as_str(), u.as_str()) && bytes_eq(nb, n.as_slice()),
        _ => false,
    };
    if own && s <= usize::MAX - 4 && nb.len() <= usize::MAX - 4 - s && span.end >= s + 4 + nb.len() {
        push_span(out, SourceSpan::new(span.file_id, s + 4, s + 4 + nb.len()));
    }
    let ghost mid = out@;
    assert(mid == start + match x.target {
        RefTargetV::Let(u, n) => if x.f.uri == u && utf8(name@) == n && span.end >= span.start + 4 + nb@.len() {
            seq![at(span.file_id, span.start + 4, span.start + 4 + nb@.len())]
        } else {
            seq![]
        },
        _ => seq![],
    }) by {
        assert(start + Seq::<SourceSpan>::empty() =~= start);
    }
    match value_span {
        Some(vs) => {
            expr_c_exec(out, sc, vs, Ghost(x));
        },
        None => {},
    }
    assert(out@ =~= start + let_c(x, utf8(name@), span, value_span));
}

fn leaf_c_exec(out: &mut Vec<SourceSpan>, sc: &Scan, value: &Option<Box<Node>>, Ghost(x): Ghost<FileCtx>)
    requires
        scan_ok(*sc, x),
    ensures
        final(out)@ == old(out)@ + leaf_c(x, crate::ast::opt_leaf(*value)),
{
    if let Some(n) = value {
        if let Node::Scalar(scalar) = &**n {
            if scalar.kind == ScalarKind::LuaExpression {
                expr_c_exec(out, sc, scalar.span, Ghost(x));
                return;
            }
        }
    }
    assert(out@ =~= old(out)@ + leaf_c(x, crate::ast::opt_leaf(*value)));
}

fn has_key_def_exec(defs: &Vec<Definition>, span: SourceSpan, p: &[u8]) -> (r: bool)
    ensures
        r == has_key_def(defs_view(defs@), span, p@),
{
    let ghost dv = defs_view(defs@);
    let mut i: usize = 0;
    while i < defs.len()
        invariant
            i <= defs@.len(),
            dv == defs_view(defs@),
            forall|j: int| 0 <= j < i ==> !((#[trigger] dv[j]).kind == DefinitionKind::Key && dv[j].selection_span == span
                && path_text(dv[j].path, dv[j].path.len() as int) == p@),
        decreases defs@.len() - i,
    {
        assert(dv[i as int] == defs@[i as int].view_def());
        if defs[i].kind == DefinitionKind::Key && defs[i].selection_span == span {
            let t = defs[i].path.to_text();
            if bytes_eq(t.as_str().as_bytes(), p) {
                return true;
            }
        }
        i = i + 1;
    }
    false
}

fn entry_c_exec(out: &mut Vec<SourceSpan>, sc: &Scan, e: &MappingEntry, Ghost(x): Ghost<FileCtx>)
    requires
        scan_ok(*sc, x),
    ensures
        final(out)@ == old(out)@ + entry_c(x, e.view_entry()),
{
    let ghost start = out@;
    let ghost ev = e.view_entry();
    let ghost raw = utf8(x.f.text);
    let key = match sc.target {
        RefTarget::KeyPath(u, p) => str_eq(sc.entry.uri.as_str(), u.as_str()) && has_key_def_exec(&sc.entry.defs, e.key_span, p.as_slice()),
        _ => false,
    };
    if key {
        push_span(out, e.key_span);
    }
    let ghost k1 = out@;
    assert(k1 =~= start + match x.target {
        RefTargetV::KeyPath(u, p) => if x.f.uri == u && has_key_def(defs_of(x.f), ev.key_span, p) {
            seq![ev.key_span]
        } else {
            seq![]
        },
        _ => seq![],
    });
    let b = sc.source.text.as_str().as_bytes();
    let mut meta: Option<SourceSpan> = None;
    if let Some(ms) = crate::outline::metadata_span_exec(b, sc.source.file_id, e) {
        if let RefTarget::TypeLike(n) = sc.target {
            if let Some(m) = sc.source.slice(ms) {
                if bytes_eq(m.as_bytes(), n.as_slice()) {
                    meta = Some(ms);
                }
            }
        }
    }
    let ghost mpart = match (metadata_span(raw, x.f.file_id, ev), x.target) {
        (Some(ms), RefTargetV::TypeLike(n)) => if source_slice(raw, x.f.file_id, ms) == Some(n) {
            seq![ms]
        } else {
            seq![]
        },
        _ => seq![],
    };
    match meta {
        Some(ms) => {
            assert(mpart == seq![ms]);
            push_span(out, ms);
        },
        None => {
            assert(mpart == Seq::<SourceSpan>::empty());
        },
    }
    assert(out@ =~= k1 + mpart);
    leaf_c_exec(out, sc, &e.value, Ghost(x));
    assert(out@ =~= start + entry_c(x, ev));
}

fn node_c_exec(out: &mut Vec<SourceSpan>, sc: &Scan, node: &Node, Ghost(x): Ghost<FileCtx>)
    requires
        scan_ok(*sc, x),
    ensures
        final(out)@ == old(out)@ + node_c(x, node.view_node()),
{
    let ghost start = out@;
    match node {
        Node::Mapping(m) => {
            let ghost es = m.entries@.map_values(|e: MappingEntry| e.view_entry());
            let mut i: usize = 0;
            while i < m.entries.len()
                invariant
                    scan_ok(*sc, x),
                    i <= m.entries@.len(),
                    es == m.entries@.map_values(|e: MappingEntry| e.view_entry()),
                    out@ == start + entries_c(x, es, i as int),
                decreases m.entries@.len() - i,
            {
                assert(es[i as int] == m.entries@[i as int].view_entry());
                entry_c_exec(out, sc, &m.entries[i], Ghost(x));
                assert(out@ =~= start + entries_c(x, es, i + 1));
                i = i + 1;
            }
        },
        Node::Sequence(q) => {
            let ghost its = q.items@.map_values(|i: crate::ast::SequenceItem| i.view_item());
            let mut i: usize = 0;
            while i < q.items.len()
                invariant
                    scan_ok(*sc, x),
                    i <= q.items@.len(),
                    its == q.items@.map_values(|i: crate::ast::SequenceItem| i.view_item()),
                    out@ == start + seqitems_c(x, its, i as int),
                decreases q.items@.len() - i,
            {
                assert(its[i as int] == q.items@[i as int].view_item());
                leaf_c_exec(out, sc, &q.items[i].value, Ghost(x));
                assert(out@ =~= start + seqitems_c(x, its, i + 1));
                i = i + 1;
            }
        },
        Node::Scalar(scalar) => {
            if scalar.kind == ScalarKind::LuaExpression {
                expr_c_exec(out, sc, scalar.span, Ghost(x));
            } else {
                assert(out@ =~= start + node_c(x, node.view_node()));
            }
        },
        Node::Tag(t) => {
            let mut hit: Option<SourceSpan> = None;
            if let RefTarget::TypeLike(n) = sc.target {
                if bytes_eq(t.name.as_str().as_bytes(), n.as_slice()) {
                    hit = crate::outline::tag_span_exec(sc.source.text.as_str().as_bytes(), sc.source.file_id, t.span);
                }
            }
            let ghost tpart = match x.target {
                RefTargetV::TypeLike(n) => if utf8(t.name@) == n {
                    match tag_span(utf8(x.f.text), x.f.file_id, t.span) {
                        Some(sp) => seq![sp],
                        None => seq![],
                    }
                } else {
                    seq![]
                },
                _ => seq![],
            };
            match hit {
                Some(sp) => {
                    push_span(out, sp);
                },
                None => {
                    assert(tpart == Seq::<SourceSpan>::empty());
                },
            }
            assert(out@ =~= start + tpart);
            leaf_c_exec(out, sc, &t.value, Ghost(x));
            assert(out@ =~= start + node_c(x, node.view_node()));
        },
        _ => {
            assert(out@ =~= start + node_c(x, node.view_node()));
        },
    }
}

fn item_c_exec(out: &mut Vec<SourceSpan>, sc: &Scan, item: &DocumentItem, Ghost(x): Ghost<FileCtx>)
    requires
        scan_ok(*sc, x),
    ensures
        final(out)@ == old(out)@ + item_c(x, item.view_item()),
{
    match item {
        DocumentItem::Directive(d) => dir_c_exec(out, sc, d.name.as_str(), d.span, &d.value, Ghost(x)),
        DocumentItem::Let(l) => let_c_exec(out, sc, l.name.as_str(), l.span, l.value_span, Ghost(x)),
        DocumentItem::Node(n) => node_c_exec(out, sc, n, Ghost(x)),
        DocumentItem::Comment(_) => {
            assert(out@ =~= old(out)@ + item_c(x, item.view_item()));
        },
    }
}

fn docs_c_exec(out: &mut Vec<SourceSpan>, sc: &Scan, documents: &Vec<Document>, Ghost(x): Ghost<FileCtx>)
    requires
        scan_ok(*sc, x),
    ensures
        ({
            let docs = documents@.map_values(|d: Document| d.view_doc());
            final(out)@ == old(out)@ + docs_c(x, docs, docs.len() as int)
        }),
{
    let ghost docs = documents@.map_values(|d: Document| d.view_doc());
    let ghost start = out@;
    let mut d: usize = 0;
    while d < documents.len()
        invariant
            scan_ok(*sc, x),
            d <= documents@.len(),
            docs == documents@.map_values(|d: Document| d.view_doc()),
            out@ == start + docs_c(x, docs, d as int),
        decreases documents@.len() - d,
    {
        let doc = &documents[d];
        let ghost items = doc.view_doc().items;
        assert(docs[d as int] == doc.view_doc());
        let ghost mid = out@;
        let mut i: usize = 0;
        while i < doc.items.len()
            invariant
                scan_ok(*sc, x),
                i <= doc.items@.len(),
                items == doc.view_doc().items,
                items.len() == doc.items@.len(),
                out@ == mid + items_c(x, items, i as int),
            decreases doc.items@.len() - i,
        {
            assert(items[i as int] == doc.items@[i as int].view_item());
            item_c_exec(out, sc, &doc.items[i], Ghost(x));
            assert(out@ =~= mid + items_c(x, items, i + 1));
            i = i + 1;
        }
        assert(out@ =~= start + docs_c(x, docs, d + 1));
        d = d + 1;
    }
}

fn tag_occ_exec(out: &mut Vec<SourceSpan>, sc: &Scan, n: &[u8], Ghost(x): Ghost<FileCtx>)
    requires
        scan_ok(*sc, x),
    ensures
        final(out)@ == old(out)@ + tag_occ(x.f, n@, 0),
{
    let ghost start0 = out@;
    let b = sc.entry.text.as_str().as_bytes();
    assert(b@ == utf8(x.f.text));
    let mut nd: Vec<u8> = Vec::new();
    nd.push(0x21);
    crate::text::push_range(&mut nd, n, 0, n.len());
    assert(nd@ =~= seq![0x21u8] + n@);
    let fid = sc.source.file_id;
    let mut start: usize = 0;
    while start <= b.len()
        invariant
            scan_ok(*sc, x),
            b@ == utf8(x.f.text),
            nd@ == seq![0x21u8] + n@,
            fid == x.f.file_id,
            start <= b@.len() + 1,
            start0 == old(out)@,
            start0 + tag_occ(x.f, n@, 0) == out@ + tag_occ(x.f, n@, start as int),
        decreases b@.len() + 1 - start,
    {
        proof {
            crate::text::lemma_find_pat_bounds(b@, start as int, b@.len() as int, nd@);
        }
        let p = match find_pat_exec(b, start, b.len(), nd.as_slice()) {
            Some(p) => p,
            None => {
                assert(tag_occ(x.f, n@, start as int) == Seq::<SourceSpan>::empty());
                assert(out@ + tag_occ(x.f, n@, start as int) =~= out@);
                return;
            },
        };
        let after = p + nd.len();
        let before_ok = p == 0 || !crate::navigation::is_ident_byte_exec(b[p - 1]);
        let after_ok = after >= b.len() || !crate::navigation::is_ident_byte_exec(b[after]);
        let ghost here = out@;
        if before_ok && after_ok {
            push_span(out, SourceSpan::new(fid, p + 1, p + 1 + n.len()));
        }
        assert(out@ + tag_occ(x.f, n@, after as int) =~= here + tag_occ(x.f, n@, start as int));
        start = after;
    }
    assert(tag_occ(x.f, n@, start as int) == Seq::<SourceSpan>::empty());
    assert(out@ + tag_occ(x.f, n@, start as int) =~= out@);
}

pub(crate) fn file_spans_exec(out: &mut Vec<SourceSpan>, sc: &Scan, Ghost(x): Ghost<FileCtx>)
    requires
        scan_ok(*sc, x),
    ensures
        final(out)@ == old(out)@ + file_spans(x),
{
    let ghost start = out@;
    let e = sc.entry;
    let parsed = parse_fallback(e.file_id, e.uri.as_str(), e.text.as_str());
    let ParsedFile::Fallback(ff) = &parsed.file;
    docs_c_exec(out, sc, &ff.ast.documents, Ghost(x));
    let ghost mid = out@;
    match sc.target {
        RefTarget::TypeLike(n) => {
            tag_occ_exec(out, sc, n.as_slice(), Ghost(x));
        },
        _ => {},
    }
    assert(out@ =~= start + file_spans(x));
}

pub(crate) fn push_span(out: &mut Vec<SourceSpan>, s: SourceSpan)
    ensures
        final(out)@ == old(out)@ + seq![s],
{
    out.push(s);
    assert(out@ =~= old(out)@ + seq![s]);
}

fn file_c_exec(out: &mut Vec<Location>, sc: &Scan, Ghost(x): Ghost<FileCtx>)
    requires
        scan_ok(*sc, x),
    ensures
        locs_view(final(out)@) == locs_view(old(out)@) + file_c(x),
{
    let ghost start = locs_view(out@);
    let mut spans: Vec<SourceSpan> = Vec::new();
    file_spans_exec(&mut spans, sc, Ghost(x));
    assert(spans@ =~= file_spans(x));
    let mut k: usize = 0;
    while k < spans.len()
        invariant
            scan_ok(*sc, x),
            k <= spans@.len(),
            spans@ == file_spans(x),
            locs_view(out@) == start + spans_locs(x.f, spans@, k as int),
        decreases spans@.len() - k,
    {
        loc_at_exec(out, sc, spans[k], Ghost(x));
        assert(locs_view(out@) =~= start + spans_locs(x.f, spans@, k + 1));
        k = k + 1;
    }
}

// ---------------------------------------------------------------------------
// The workspace, declarations and the answer

/// An earlier file of `fs` has the URI of file `i`.
pub open spec fn seen_before(fs: Seq<FileV>, i: int) -> bool {
    exists|j: int| 0 <= j < i && (#[trigger] fs[j]).uri == fs[i].uri
}

/// The first `k` files of `fs`, each URI kept at its first file only.
pub open spec fn first_of_each(fs: Seq<FileV>, k: int) -> Seq<FileV>
    decreases k,
{
    if k <= 0 {
        seq![]
    } else if seen_before(fs, k - 1) {
        first_of_each(fs, k - 1)
    } else {
        first_of_each(fs, k - 1).push(fs[k - 1])
    }
}

/// The files searched: `files` and then the current file, the first file of each URI.
pub open spec fn ref_corpus(cur: FileV, files: Seq<FileV>) -> Seq<FileV> {
    first_of_each(files.push(cur), files.len() + 1int)
}

pub open spec fn all_lexable(fs: Seq<FileV>) -> bool {
    forall|i: int| 0 <= i < fs.len() ==> lexable(#[trigger] fs[i])
}

/// Every place of the first `k` files that names the target, file by file.
pub open spec fn corpus_c(fs: Seq<FileV>, t: RefTargetV, folders: Seq<Seq<char>>, config: LumalsConfig, k: int) -> Seq<LocV>
    decreases k,
{
    if k <= 0 {
        seq![]
    } else {
        corpus_c(fs, t, folders, config, k - 1) + file_c(FileCtx { f: fs[k - 1], target: t, folders, config })
    }
}

/// For a directive item at `span`: its alias's place, or its value's.
pub open spec fn pick_span(raw: Seq<u8>, fid: FileId, it: DocItemV, span: SourceSpan, alias: bool) -> Option<SourceSpan> {
    match it {
        DocItemV::Directive { name, span: s, value } => if s == span {
            if alias {
                alias_span(raw, fid, name, s, value)
            } else {
                value_span(raw, fid, s, value)
            }
        } else {
            None
        },
        _ => None,
    }
}

pub open spec fn pick_items(raw: Seq<u8>, fid: FileId, items: Seq<DocItemV>, span: SourceSpan, alias: bool, i: int) -> Option<SourceSpan>
    decreases items.len() - i,
{
    if i < 0 || i >= items.len() {
        None
    } else if pick_span(raw, fid, items[i], span, alias) is Some {
        pick_span(raw, fid, items[i], span, alias)
    } else {
        pick_items(raw, fid, items, span, alias, i + 1)
    }
}

pub open spec fn pick_docs(raw: Seq<u8>, fid: FileId, docs: Seq<DocV>, span: SourceSpan, alias: bool, d: int) -> Option<SourceSpan>
    decreases docs.len() - d,
{
    if d < 0 || d >= docs.len() {
        None
    } else if pick_items(raw, fid, docs[d].items, span, alias, 0) is Some {
        pick_items(raw, fid, docs[d].items, span, alias, 0)
    } else {
        pick_docs(raw, fid, docs, span, alias, d + 1)
    }
}

/// Where a definition is declared: a let binding's name after `let `, an alias or a
/// directive's value in the directive it comes from, else its selection.
pub open spec fn decl_span(f: FileV, d: DefV) -> Option<SourceSpan> {
    let raw = utf8(f.text);
    match d.kind {
        DefinitionKind::Let => if d.span.start + 4 + d.name.len() <= usize::MAX {
            Some(at(d.span.file_id, d.span.start + 4, d.span.start + 4 + d.name.len()))
        } else {
            None
        },
        DefinitionKind::Alias => Some(
            match pick_docs(raw, f.file_id, docs_of(f), d.span, true, 0) {
                Some(s) => s,
                None => d.selection_span,
            },
        ),
        DefinitionKind::Directive => Some(
            match pick_docs(raw, f.file_id, docs_of(f), d.span, false, 0) {
                Some(s) => s,
                None => d.selection_span,
            },
        ),
        _ => Some(d.selection_span),
    }
}

pub open spec fn at_decl(f: FileV, d: DefV, l: LocV) -> bool {
    decl_span(f, d) matches Some(s) && span_range(utf8(f.text), s) == Some(l.1)
}

/// Definition `d` of file `f` declares the target.
pub open spec fn declares(f: FileV, t: RefTargetV, d: DefV) -> bool {
    match t {
        RefTargetV::Let(u, n) => f.uri == u && d.kind == DefinitionKind::Let && d.name == n,
        RefTargetV::Alias(u, n) => f.uri == u && d.kind == DefinitionKind::Alias && d.name == n,
        RefTargetV::KeyPath(u, p) => f.uri == u && d.kind == DefinitionKind::Key && path_text(d.path, d.path.len() as int)
            == p,
        RefTargetV::TypeLike(n) => d.kind == DefinitionKind::Directive && schema_like(d.name) && (d.detail matches Some(
            v,
        ) && normalized_name(v) == n),
        RefTargetV::Import(_) => false,
    }
}

/// The location is where a file of the workspace declares the target.
pub open spec fn is_decl(fs: Seq<FileV>, t: RefTargetV, l: LocV) -> bool {
    exists|i: int, j: int|
        0 <= i < fs.len() && (#[trigger] fs[i]).uri == l.0 && 0 <= j < defs_of(fs[i]).len() && declares(
            fs[i],
            t,
            #[trigger] defs_of(fs[i])[j],
        ) && at_decl(fs[i], defs_of(fs[i])[j], l)
}

pub open spec fn range_lt(a: Range, b: Range) -> bool {
    ||| a.start.line < b.start.line
    ||| (a.start.line == b.start.line && a.start.character < b.start.character)
    ||| (a.start == b.start && a.end.line < b.end.line)
    ||| (a.start == b.start && a.end.line == b.end.line && a.end.character < b.end.character)
}

/// Locations in order of URI (by its bytes), then start and end line and character.
pub open spec fn loc_lt(a: LocV, b: LocV) -> bool {
    bytes_lt(utf8(a.0), utf8(b.0), 0) || (a.0 == b.0 && range_lt(a.1, b.1))
}

pub open spec fn sorted_locs(s: Seq<LocV>) -> bool {
    forall|i: int, j: int| 0 <= i < j < s.len() ==> loc_lt(#[trigger] s[i], #[trigger] s[j])
}

/// The places that name the symbol at the offset: none where no symbol is there, else those
/// that the files of the workspace hold, without its declarations unless they are asked for.
pub open spec fn references_of(
    cur: FileV,
    files: Seq<FileV>,
    offset: int,
    include_declaration: bool,
    folders: Seq<Seq<char>>,
    config: LumalsConfig,
) -> Set<LocV> {
    let fs = ref_corpus(cur, files);
    match ref_target(RefCtx { cur, offset, folders, config }) {
        None => Set::empty(),
        Some(t) => Set::new(
            |l: LocV| corpus_c(fs, t, folders, config, fs.len() as int).contains(l) && (include_declaration || !is_decl(fs, t, l)),
        ),
    }
}

pub(crate) proof fn lemma_loc_order(a: LocV, b: LocV, c: LocV)
    ensures
        loc_lt(a, b) && loc_lt(b, c) ==> loc_lt(a, c),
        !(loc_lt(a, b) && loc_lt(b, a)),
        a == b || loc_lt(a, b) || loc_lt(b, a),
{
    lemma_bytes_lt_order(utf8(a.0), utf8(b.0), utf8(c.0), 0);
    lemma_bytes_lt_order(utf8(a.0), utf8(a.0), utf8(a.0), 0);
    lemma_bytes_lt_order(utf8(b.0), utf8(b.0), utf8(b.0), 0);
    assert(utf8(a.0).subrange(0, 0) =~= utf8(b.0).subrange(0, 0));
    crate::index::lemma_uri_total(utf8(a.0), utf8(b.0), 0);
    if utf8(a.0) == utf8(b.0) {
        crate::text::lemma_utf8_injective(a.0, b.0);
    }
}

pub(crate) proof fn lemma_first_of_each(fs: Seq<FileV>, k: int)
    requires
        all_lexable(fs),
        k <= fs.len(),
    ensures
        all_lexable(first_of_each(fs, k)),
    decreases k,
{
    if k > 0 {
        lemma_first_of_each(fs, k - 1);
    }
}

/// Whether one of the first `k` files has the URI `u`.
fn seen_exec(files: &[(String, String, FileId)], k: usize, u: &str) -> (r: bool)
    requires
        k <= files@.len(),
    ensures
        r == (exists|i: int| 0 <= i < k && (#[trigger] files_v(files@)[i]).uri == u@),
{
    let ghost fv = files_v(files@);
    let mut j: usize = 0;
    while j < k
        invariant
            k <= files@.len(),
            fv == files_v(files@),
            j <= k,
            forall|i: int| 0 <= i < j ==> (#[trigger] fv[i]).uri != u@,
        decreases k - j,
    {
        assert(fv[j as int] == file_v(files@[j as int]));
        if str_eq(files[j].0.as_str(), u) {
            return true;
        }
        j = j + 1;
    }
    false
}

proof fn lemma_seen(fs: Seq<FileV>, files: Seq<FileV>, k: int)
    requires
        0 <= k < fs.len(),
        k <= files.len(),
        forall|i: int| 0 <= i < k ==> fs[i] == files[i],
    ensures
        seen_before(fs, k) == (exists|i: int| 0 <= i < k && (#[trigger] files[i]).uri == fs[k].uri),
{
    if seen_before(fs, k) {
        let j = choose|j: int| 0 <= j < k && (#[trigger] fs[j]).uri == fs[k].uri;
        assert(files[j].uri == fs[k].uri);
    }
    if exists|i: int| 0 <= i < k && (#[trigger] files[i]).uri == fs[k].uri {
        let j = choose|j: int| 0 <= j < k && (#[trigger] files[j]).uri == fs[k].uri;
        assert(fs[j].uri == fs[k].uri);
    }
}

fn add_unseen(es: &mut Vec<Entry>, files: &[(String, String, FileId)], k: usize, u: &str, t: &str, f: FileId, Ghost(all): Ghost<Seq<FileV>>)
    requires
        k <= files@.len(),
        k < all.len(),
        all[k as int] == (FileV { uri: u@, text: t@, file_id: f }),
        forall|i: int| 0 <= i < k ==> all[i] == files_v(files@)[i],
        all_lexable(all),
        entries_ok(old(es)@, first_of_each(all, k as int)),
    ensures
        entries_ok(final(es)@, first_of_each(all, k + 1)),
{
    proof {
        lemma_seen(all, files_v(files@), k as int);
    }
    if !seen_exec(files, k, u) {
        assert(lexable(all[k as int]));
        let ghost prev = es@;
        es.push(build_entry(u, t, f));
        assert(first_of_each(all, k + 1) == first_of_each(all, k as int).push(all[k as int]));
        assert forall|i: int| 0 <= i < es@.len() implies entry_ok(#[trigger] es@[i], first_of_each(all, k + 1)[i]) by {
            if i < prev.len() {
                assert(es@[i] == prev[i]);
            }
        }
    }
}

pub(crate) fn build_ref_corpus(uri: &str, text: &str, file_id: FileId, files: &[(String, String, FileId)]) -> (es: Vec<Entry>)
    requires
        all_lexable(files_v(files@).push(FileV { uri: uri@, text: text@, file_id })),
    ensures
        entries_ok(es@, ref_corpus(FileV { uri: uri@, text: text@, file_id }, files_v(files@))),
{
    let ghost cur = FileV { uri: uri@, text: text@, file_id };
    let ghost all = files_v(files@).push(cur);
    let n = files.len();
    let mut es: Vec<Entry> = Vec::new();
    let mut k: usize = 0;
    while k < n
        invariant
            n == files@.len(),
            all == files_v(files@).push(cur),
            all_lexable(all),
            k <= n,
            entries_ok(es@, first_of_each(all, k as int)),
        decreases n - k,
    {
        let (u, t, f) = &files[k];
        assert(all[k as int] == file_v(files@[k as int]));
        add_unseen(&mut es, files, k, u.as_str(), t.as_str(), *f, Ghost(all));
        k = k + 1;
    }
    assert(all[n as int] == cur);
    add_unseen(&mut es, files, n, uri, text, file_id, Ghost(all));
    es
}

fn corpus_c_exec(
    es: &Vec<Entry>,
    t: &RefTarget,
    folders: &[String],
    config: &LumalsConfig,
    Ghost(fs): Ghost<Seq<FileV>>,
) -> (r: Vec<Location>)
    requires
        entries_ok(es@, fs),
        all_lexable(fs),
    ensures
        locs_view(r@) == corpus_c(fs, t.view_target(), strings_view(folders@), *config, fs.len() as int),
{
    let mut out: Vec<Location> = Vec::new();
    let mut i: usize = 0;
    assert(locs_view(out@) =~= Seq::<LocV>::empty());
    while i < es.len()
        invariant
            entries_ok(es@, fs),
            all_lexable(fs),
            i <= es@.len(),
            locs_view(out@) == corpus_c(fs, t.view_target(), strings_view(folders@), *config, i as int),
        decreases es@.len() - i,
    {
        let e = &es[i];
        assert(entry_ok(*e, fs[i as int]));
        assert(lexable(fs[i as int]));
        let sc = Scan {
            entry: e,
            source: SourceText::new(e.file_id, e.uri.as_str(), e.text.as_str()),
            target: t,
            folders,
            config,
        };
        let ghost x = FileCtx { f: fs[i as int], target: t.view_target(), folders: strings_view(folders@), config: *config };
        file_c_exec(&mut out, &sc, Ghost(x));
        i = i + 1;
    }
    out
}

fn pick_exec(source: &SourceText, documents: &Vec<Document>, span: SourceSpan, alias: bool) -> (r: Option<SourceSpan>)
    ensures
        r == pick_docs(source.bytes(), source.file_id, documents@.map_values(|d: Document| d.view_doc()), span, alias, 0),
{
    let ghost docs = documents@.map_values(|d: Document| d.view_doc());
    let ghost raw = source.bytes();
    let fid = source.file_id;
    let mut d: usize = 0;
    while d < documents.len()
        invariant
            d <= documents@.len(),
            raw == source.bytes(),
            fid == source.file_id,
            docs == documents@.map_values(|d: Document| d.view_doc()),
            pick_docs(raw, fid, docs, span, alias, d as int) == pick_docs(raw, fid, docs, span, alias, 0),
        decreases documents@.len() - d,
    {
        let doc = &documents[d];
        let ghost items = doc.view_doc().items;
        assert(docs[d as int] == doc.view_doc());
        let mut i: usize = 0;
        while i < doc.items.len()
            invariant
                i <= doc.items@.len(),
                raw == source.bytes(),
                fid == source.file_id,
                items == doc.view_doc().items,
                items.len() == doc.items@.len(),
                pick_items(raw, fid, items, span, alias, i as int) == pick_items(raw, fid, items, span, alias, 0),
                docs == documents@.map_values(|d: Document| d.view_doc()),
                d < docs.len(),
                docs[d as int].items == items,
                pick_docs(raw, fid, docs, span, alias, d as int) == pick_docs(raw, fid, docs, span, alias, 0),
            decreases doc.items@.len() - i,
        {
            assert(items[i as int] == doc.items@[i as int].view_item());
            if let DocumentItem::Directive(dir) = &doc.items[i] {
                if dir.span == span {
                    let r = if alias {
                        crate::navigation::alias_span_exec(source, dir.name.as_str(), dir.span, &dir.value)
                    } else {
                        value_span_exec(source, dir.span, &dir.value)
                    };
                    if r.is_some() {
                        return r;
                    }
                }
            }
            i = i + 1;
        }
        d = d + 1;
    }
    None
}

fn decl_span_exec(e: &Entry, d: &Definition, Ghost(f): Ghost<FileV>) -> (r: Option<SourceSpan>)
    requires
        entry_ok(*e, f),
        lexable(f),
    ensures
        r == decl_span(f, d.view_def()),
{
    let s = d.span.start;
    let nl = d.name.as_str().as_bytes().len();
    match d.kind {
        DefinitionKind::Let => {
            if s <= usize::MAX - 4 && nl <= usize::MAX - 4 - s {
                Some(SourceSpan::new(d.span.file_id, s + 4, s + 4 + nl))
            } else {
                None
            }
        },
        DefinitionKind::Alias | DefinitionKind::Directive => {
            let parsed = parse_fallback(e.file_id, e.uri.as_str(), e.text.as_str());
            let ParsedFile::Fallback(ff) = &parsed.file;
            let source = SourceText::new(e.file_id, e.uri.as_str(), e.text.as_str());
            let alias = d.kind == DefinitionKind::Alias;
            match pick_exec(&source, &ff.ast.documents, d.span, alias) {
                Some(sp) => Some(sp),
                None => Some(d.selection_span),
            }
        },
        _ => Some(d.selection_span),
    }
}

fn declares_exec(e: &Entry, t: &RefTarget, d: &Definition) -> (r: bool)
    ensures
        r == declares(FileV { uri: e.uri@, text: e.text@, file_id: e.file_id }, t.view_target(), d.view_def()),
{
    let name = d.name.as_str().as_bytes();
    match t {
        RefTarget::Let(u, n) => str_eq(e.uri.as_str(), u.as_str()) && d.kind == DefinitionKind::Let && bytes_eq(name, n.as_slice()),
        RefTarget::Alias(u, n) => str_eq(e.uri.as_str(), u.as_str()) && d.kind == DefinitionKind::Alias && bytes_eq(name, n.as_slice()),
        RefTarget::KeyPath(u, p) => {
            if !(str_eq(e.uri.as_str(), u.as_str()) && d.kind == DefinitionKind::Key) {
                return false;
            }
            let tx = d.path.to_text();
            bytes_eq(tx.as_str().as_bytes(), p.as_slice())
        },
        RefTarget::TypeLike(n) => {
            let schema = crate::goto::bytes_of("@schema");
            let profile = crate::goto::bytes_of("@profile");
            if !(d.kind == DefinitionKind::Directive && (bytes_eq(name, schema.as_slice()) || bytes_eq(name, profile.as_slice()))) {
                return false;
            }
            match &d.detail {
                Some(v) => {
                    let nv = normalized_name_exec(v.as_str().as_bytes());
                    bytes_eq(nv.as_slice(), n.as_slice())
                },
                None => false,
            }
        },
        RefTarget::Import(_) => false,
    }
}

fn is_decl_exec(es: &Vec<Entry>, t: &RefTarget, l: &Location, Ghost(fs): Ghost<Seq<FileV>>) -> (r: bool)
    requires
        entries_ok(es@, fs),
        all_lexable(fs),
    ensures
        r == is_decl(fs, t.view_target(), loc_view(*l)),
{
    let ghost tv = t.view_target();
    let ghost lv = loc_view(*l);
    let mut i: usize = 0;
    while i < es.len()
        invariant
            entries_ok(es@, fs),
            all_lexable(fs),
            i <= es@.len(),
            tv == t.view_target(),
            lv == loc_view(*l),
            forall|a: int, b: int|
                0 <= a < i && (#[trigger] fs[a]).uri == lv.0 && 0 <= b < defs_of(fs[a]).len() ==> !(declares(fs[a], tv, #[trigger] defs_of(fs[a])[b]) && at_decl(fs[a], defs_of(fs[a])[b], lv)),
        decreases es@.len() - i,
    {
        let e = &es[i];
        let ghost f = fs[i as int];
        assert(entry_ok(*e, f));
        assert(lexable(f));
        if str_eq(e.uri.as_str(), l.uri.as_str()) {
            let mut j: usize = 0;
            while j < e.defs.len()
                invariant
                    entries_ok(es@, fs),
                    all_lexable(fs),
                    i < es@.len(),
                    e == &es@[i as int],
                    f == fs[i as int],
                    entry_ok(*e, f),
                    lexable(f),
                    f.uri == lv.0,
                    j <= e.defs@.len(),
                    tv == t.view_target(),
                    lv == loc_view(*l),
                    forall|b: int| 0 <= b < j ==> !(declares(f, tv, #[trigger] defs_of(f)[b]) && at_decl(f, defs_of(f)[b], lv)),
                decreases e.defs@.len() - j,
            {
                let d = &e.defs[j];
                assert(defs_of(f)[j as int] == d.view_def());
                assert(FileV { uri: e.uri@, text: e.text@, file_id: e.file_id } == f);
                if declares_exec(e, t, d) {
                    if let Some(sp) = decl_span_exec(e, d, Ghost(f)) {
                        if let Some(r) = span_range_exec(e.text.as_str(), sp) {
                            if same_range(r, l.range) {
                                assert(declares(fs[i as int], tv, defs_of(fs[i as int])[j as int]));
                                return true;
                            }
                        }
                    }
                }
                j = j + 1;
            }
        }
        i = i + 1;
    }
    false
}

pub(crate) fn copy_loc(l: &Location) -> (r: Location)
    ensures
        loc_view(r) == loc_view(*l),
{
    Location { uri: l.uri.clone(), range: l.range }
}

pub(crate) fn loc_lt_exec(a: &Location, b: &Location) -> (r: bool)
    ensures
        r == loc_lt(loc_view(*a), loc_view(*b)),
{
    let x = a.range;
    let y = b.range;
    bytes_lt_exec(a.uri.as_str().as_bytes(), b.uri.as_str().as_bytes()) || (str_eq(a.uri.as_str(), b.uri.as_str()) && (
    x.start.line < y.start.line || (x.start.line == y.start.line && x.start.character < y.start.character) || (
    x.start.line == y.start.line && x.start.character == y.start.character && x.end.line < y.end.line) || (x.start.line
        == y.start.line && x.start.character == y.start.character && x.end.line == y.end.line && x.end.character
        < y.end.character)))
}

pub(crate) fn insert_sorted(out: &mut Vec<Location>, x: Location)
    requires
        sorted_locs(locs_view(old(out)@)),
    ensures
        sorted_locs(locs_view(final(out)@)),
        locs_view(final(out)@).to_set() == locs_view(old(out)@).to_set().insert(loc_view(x)),
{
    let ghost v = locs_view(out@);
    let ghost xv = loc_view(x);
    let mut p: usize = 0;
    while p < out.len() && loc_lt_exec(&out[p], &x)
        invariant
            p <= out@.len(),
            v == locs_view(out@),
            v.len() == out@.len(),
            xv == loc_view(x),
            forall|i: int| 0 <= i < p ==> loc_lt(#[trigger] v[i], xv),
        decreases out@.len() - p,
    {
        assert(v[p as int] == loc_view(out@[p as int]));
        p = p + 1;
    }
    if p < out.len() && same_loc(&out[p], &x) {
        assert(v[p as int] == xv);
        assert(v.to_set() =~= v.to_set().insert(xv));
        return;
    }
    proof {
        if p < v.len() {
            lemma_loc_order(v[p as int], xv, xv);
            assert(loc_lt(xv, v[p as int]));
        }
    }
    out.insert(p, x);
    let ghost w = locs_view(out@);
    assert(w =~= v.insert(p as int, xv));
    assert forall|i: int, j: int| 0 <= i < j < w.len() implies loc_lt(#[trigger] w[i], #[trigger] w[j]) by {
        if j < p {
        } else if j == p {
        } else if i < p {
            lemma_loc_order(v[i], xv, v[j - 1]);
            if j - 1 > p {
                lemma_loc_order(xv, v[p as int], v[j - 1]);
            }
        } else if i == p {
            if j - 1 > p {
                lemma_loc_order(xv, v[p as int], v[j - 1]);
            }
        } else {
        }
    }
    assert forall|l: LocV| w.contains(l) <==> v.contains(l) || l == xv by {
        if w.contains(l) {
            let i = choose|i: int| 0 <= i < w.len() && w[i] == l;
            if i < p {
                assert(v[i] == l);
            } else if i > p {
                assert(v[i - 1] == l);
            }
        }
        if v.contains(l) {
            let i = choose|i: int| 0 <= i < v.len() && v[i] == l;
            if i < p {
                assert(w[i] == l);
            } else {
                assert(w[i + 1] == l);
            }
        }
        if l == xv {
            assert(w[p as int] == l);
        }
    }
    assert(w.to_set() =~= v.to_set().insert(xv));
}

pub(crate) fn same_range(a: Range, b: Range) -> (r: bool)
    ensures
        r == (a == b),
{
    a.start.line == b.start.line && a.start.character == b.start.character && a.end.line == b.end.line
        && a.end.character == b.end.character
}

fn same_loc(a: &Location, b: &Location) -> (r: bool)
    ensures
        r == (loc_view(*a) == loc_view(*b)),
{
    crate::goto::same_location(a, b)
}

/// Leaving declarations out only removes locations, and exactly those that declare the
/// symbol: what is found without them is what is found with them, less the declarations.
pub proof fn lemma_declarations_left_out(
    cur: FileV,
    files: Seq<FileV>,
    offset: int,
    folders: Seq<Seq<char>>,
    config: LumalsConfig,
)
    ensures
        references_of(cur, files, offset, false, folders, config).subset_of(
            references_of(cur, files, offset, true, folders, config),
        ),
        forall|l: LocV|
            #[trigger] references_of(cur, files, offset, true, folders, config).contains(l) && !references_of(
                cur,
                files,
                offset,
                false,
                folders,
                config,
            ).contains(l) ==> is_decl(
                ref_corpus(cur, files),
                ref_target(RefCtx { cur, offset, folders, config })->Some_0,
                l,
            ),
{
}

/// "Find references": the places of the workspace (`files`, then the current file where no
/// file of `files` has its URI) that name the symbol at the offset of the current file,
/// sorted by URI and range, each once; its declarations only when `include_declaration`.
pub fn find_references(
    uri: &str,
    text: &str,
    file_id: FileId,
    offset: usize,
    include_declaration: bool,
    files: &[(String, String, FileId)],
    folder_uris: &[String],
    config: &LumalsConfig,
) -> (r: Vec<Location>)
    requires
        all_lexable(files_v(files@).push(FileV { uri: uri@, text: text@, file_id })),
    ensures
        sorted_locs(locs_view(r@)),
        locs_view(r@).to_set() == references_of(
            FileV { uri: uri@, text: text@, file_id },
            files_v(files@),
            offset as int,
            include_declaration,
            strings_view(folder_uris@),
            *config,
        ),
{
    let ghost cur = FileV { uri: uri@, text: text@, file_id };
    let ghost c = RefCtx { cur, offset: offset as int, folders: strings_view(folder_uris@), config: *config };
    let ghost all = files_v(files@).push(cur);
    assert(all[all.len() - 1] == cur);
    assert(lexable(cur));
    let parsed = parse_fallback(file_id, uri, text);
    let ParsedFile::Fallback(ff) = &parsed.file;
    let cx = Current { entry: build_entry(uri, text, file_id), source: &parsed.source, offset, folders: folder_uris, config };
    let mut out: Vec<Location> = Vec::new();
    let target = match ref_target_exec(&cx, &ff.ast.documents, Ghost(c)) {
        Some(t) => t,
        None => {
            assert(locs_view(out@).to_set() =~= Set::<LocV>::empty());
            return out;
        },
    };
    let ghost t = target.view_target();
    let es = build_ref_corpus(uri, text, file_id, files);
    let ghost fs = ref_corpus(cur, files_v(files@));
    proof {
        lemma_first_of_each(all, all.len() as int);
    }
    let found = corpus_c_exec(&es, &target, folder_uris, config, Ghost(fs));
    let ghost fv = locs_view(found@);
    let ghost keep = |l: LocV| include_declaration || !is_decl(fs, t, l);
    let mut k: usize = 0;
    assert(locs_view(out@).to_set() =~= Set::new(|l: LocV| fv.subrange(0, 0).contains(l) && keep(l)));
    while k < found.len()
        invariant
            k <= found@.len(),
            fv == locs_view(found@),
            fv.len() == found@.len(),
            entries_ok(es@, fs),
            all_lexable(fs),
            t == target.view_target(),
            keep == (|l: LocV| include_declaration || !is_decl(fs, t, l)),
            sorted_locs(locs_view(out@)),
            locs_view(out@).to_set() == Set::new(|l: LocV| fv.subrange(0, k as int).contains(l) && keep(l)),
        decreases found@.len() - k,
    {
        let ghost before = locs_view(out@).to_set();
        let l = &found[k];
        assert(fv[k as int] == loc_view(*l));
        let ghost lv = loc_view(*l);
        assert(fv.subrange(0, k + 1) =~= fv.subrange(0, k as int).push(lv));
        assert forall|y: LocV| fv.subrange(0, k + 1).contains(y) <==> (fv.subrange(0, k as int).contains(y) || y == lv) by {
            let s0 = fv.subrange(0, k as int);
            let s1 = fv.subrange(0, k + 1);
            if s1.contains(y) {
                let i = choose|i: int| 0 <= i < s1.len() && s1[i] == y;
                if i < k {
                    assert(s0[i] == y);
                }
            }
            if s0.contains(y) {
                let i = choose|i: int| 0 <= i < s0.len() && s0[i] == y;
                assert(s1[i] == y);
            }
            if y == lv {
                assert(s1[k as int] == y);
            }
        }
        if include_declaration || !is_decl_exec(&es, &target, l, Ghost(fs)) {
            assert(keep(lv));
            insert_sorted(&mut out, copy_loc(l));
            assert(locs_view(out@).to_set() == before.insert(lv));
            assert forall|y: LocV| #[trigger] locs_view(out@).to_set().contains(y) == (fv.subrange(0, k + 1).contains(y) && keep(y)) by {
                assert(before.contains(y) == (fv.subrange(0, k as int).contains(y) && keep(y)));
            }
            assert(locs_view(out@).to_set() =~= Set::new(|y: LocV| fv.subrange(0, k + 1).contains(y) && keep(y)));
        } else {
            assert(locs_view(out@).to_set() =~= Set::new(|y: LocV| fv.subrange(0, k + 1).contains(y) && keep(y)));
        }
        k = k + 1;
    }
    assert(fv.subrange(0, k as int) =~= fv);
    assert(locs_view(out@).to_set() =~= references_of(cur, files_v(files@), offset as int, include_declaration, strings_view(folder_uris@), *config));
    out
}

} // verus!
