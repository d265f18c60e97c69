//! Renaming a let binding, an import alias or a key: where the cursor stands on one, the
//! name it carries, and the edits that rename it and every use of it in the workspace.
use vstd::prelude::*;
use vstd::utf8::decode_utf8;

use crate::ast::{DocItemV, DocV, Document, DocumentItem, EntryV, ItemV, LeafV, MappingEntry, Node, NodeV, ScalarKind};
use crate::code_actions::common::source_slice;
use crate::config::LumalsConfig;
use crate::goto::{
    at, build_entry, defs_of, docs_of, entries_ok, entry_ok, file_named, files_v, first_def, first_def_exec, lexable,
    loc_view, locs_view, norm_of, span_range, span_range_exec, Entry, FileV, LocV, Location,
};
use crate::imports::strings_view;
use crate::navigation::{alias_span, contains, ident_path, identifier_path_at_span, is_ident_byte, IdentifierPath};
use crate::parser::parse_fallback;
use crate::position::Range;
use crate::references::{
    all_lexable, count_dots, file_spans, key_at, key_def_at, key_path_via, key_target, ref_corpus, runs, FileCtx,
    RefCtx, RefTarget, RefTargetV, Current, Scan,
};
use crate::semantic::defs_view;
use crate::symbols::{path_text, DefV, Definition, DefinitionKind};
use crate::syntax::{FileId, ParsedFile, SourceSpan, SourceText};
use crate::text::{bytes_eq, rfind_byte, str_eq, utf8};

verus! {

/// Why a rename is refused.
#[derive(Debug, Clone, Copy, PartialEq, Eq)]
pub enum RenameError {
    /// Nothing that can be renamed is at the position.
    UnsupportedRange,
    /// The new name is not made of identifier characters only.
    InvalidName,
    /// The new name is taken by another symbol.
    Conflict,
}

/// The range and current name of what is about to be renamed.
#[derive(Debug, Clone, PartialEq, Eq)]
pub struct PreparedRename {
    pub range: Range,
    pub placeholder: String,
}

/// One replacement of a range by the new name.
#[derive(Debug, Clone, PartialEq, Eq)]
pub struct RenameEdit {
    pub range: Range,
    pub new_text: String,
}

/// The edits of a rename, file by file.
#[derive(Debug, Clone, PartialEq, Eq)]
pub struct WorkspaceEdit {
    pub changes: Vec<(String, Vec<RenameEdit>)>,
}

/// What is renamed, its current name and the span under the cursor.
pub type SiteV = (RefTargetV, Seq<u8>, SourceSpan);

/// The path under the cursor inside `span`, the index of the segment under it and that
/// segment's span.
pub open spec fn occurrence(c: RefCtx, span: SourceSpan) -> Option<(Seq<Seq<u8>>, int, SourceSpan)> {
    let norm = norm_of(c.cur);
    match ident_path(norm, c.cur.file_id, span, c.offset) {
        None => None,
        Some((ps, segs)) => {
            let sel = count_dots(norm, ps.start as int, c.offset) as int;
            let rs = runs(norm.subrange(ps.start as int, ps.end as int), 0);
            if sel < rs.len() {
                Some((segs, sel, at(span.file_id, ps.start + rs[sel].0, ps.start + rs[sel].1)))
            } else {
                None
            }
        },
    }
}

/// What segment `sel` of a path names: the base's alias or let binding, a single segment's
/// key, else the key it leads to.
pub open spec fn site(c: RefCtx, segs: Seq<Seq<u8>>, sel: int, sspan: SourceSpan) -> Option<SiteV> {
    let defs = defs_of(c.cur);
    let base = segs[0];
    if sel == 0 && first_def(defs, DefinitionKind::Alias, base, 0) is Some {
        Some((RefTargetV::Alias(c.cur.uri, base), base, sspan))
    } else if sel == 0 && first_def(defs, DefinitionKind::Let, base, 0) is Some {
        Some((RefTargetV::Let(c.cur.uri, base), base, sspan))
    } else if sel == 0 && segs.len() == 1 && first_def(defs, DefinitionKind::Key, base, 0) is Some {
        let d = first_def(defs, DefinitionKind::Key, base, 0)->Some_0;
        Some((key_target(c.cur.uri, d), d.name, sspan))
    } else {
        let k = if sel + 1 < segs.len() { sel + 1 } else { segs.len() as int };
        match key_path_via(c.cur, c.folders, c.config, segs, k) {
            Some((u, p)) => if sel < segs.len() {
                Some((RefTargetV::KeyPath(u, p), segs[sel], sspan))
            } else {
                None
            },
            None => None,
        }
    }
}

pub open spec fn occ_site(c: RefCtx, span: SourceSpan) -> Option<SiteV> {
    match occurrence(c, span) {
        Some((segs, sel, ss)) => site(c, segs, sel, ss),
        None => None,
    }
}

pub open spec fn rn_dir(c: RefCtx, name: Seq<u8>, span: SourceSpan, value: Option<Seq<u8>>) -> Option<SiteV> {
    let norm = norm_of(c.cur);
    let fid = c.cur.file_id;
    match alias_span(norm, fid, name, span, value) {
        Some(sp) => if contains(sp, c.offset) {
            match source_slice(norm, fid, sp) {
                Some(a) => Some((RefTargetV::Alias(c.cur.uri, a), a, sp)),
                None => None,
            }
        } else {
            None
        },
        None => None,
    }
}

pub open spec fn rn_let(c: RefCtx, name: Seq<u8>, span: SourceSpan, value_span: Option<SourceSpan>) -> Option<SiteV> {
    let ns = span.start + 4;
    let ne = span.start + 4 + name.len();
    if span.end >= ne && ns <= c.offset < ne {
        Some((RefTargetV::Let(c.cur.uri, name), name, at(span.file_id, ns, ne)))
    } else {
        match value_span {
            Some(vs) => if contains(vs, c.offset) {
                match crate::navigation::trimmed_span(norm_of(c.cur), c.cur.file_id, vs) {
                    Some(ts) => occ_site(c, ts),
                    None => None,
                }
            } else {
                None
            },
            None => None,
        }
    }
}

pub open spec fn rn_leaf(c: RefCtx, l: Option<LeafV>) -> Option<SiteV> {
    match l {
        Some(LeafV::Scalar { kind, span, .. }) => if kind == ScalarKind::LuaExpression {
            occ_site(c, span)
        } else {
            None
        },
        _ => None,
    }
}

pub open spec fn rn_entries(c: RefCtx, es: Seq<EntryV>, i: int) -> Option<SiteV>
    decreases es.len() - i,
{
    if i < 0 || i >= es.len() {
        None
    } else if contains(es[i].key_span, c.offset) && key_def_at(defs_of(c.cur), es[i].key_span, 0) is Some {
        let d = key_def_at(defs_of(c.cur), es[i].key_span, 0)->Some_0;
        Some((key_target(c.cur.uri, d), d.name, es[i].key_span))
    } else if rn_leaf(c, es[i].value) is Some {
        rn_leaf(c, es[i].value)
    } else {
        rn_entries(c, es, i + 1)
    }
}

pub open spec fn rn_seq(c: RefCtx, items: Seq<ItemV>, i: int) -> Option<SiteV>
    decreases items.len() - i,
{
    if i < 0 || i >= items.len() {
        None
    } else if rn_leaf(c, items[i].value) is Some {
        rn_leaf(c, items[i].value)
    } else {
        rn_seq(c, items, i + 1)
    }
}

pub open spec fn rn_node(c: RefCtx, n: NodeV) -> Option<SiteV> {
    match n {
        NodeV::Mapping { entries, .. } => rn_entries(c, entries, 0),
        NodeV::Sequence { items, .. } => rn_seq(c, items, 0),
        NodeV::Leaf(l) => rn_leaf(c, Some(l)),
        NodeV::Tag { value, .. } => rn_leaf(c, value),
        _ => None,
    }
}

pub open spec fn rn_item(c: RefCtx, i: DocItemV) -> Option<SiteV> {
    match i {
        DocItemV::Directive { name, span, value } => rn_dir(c, name, span, value),
        DocItemV::Let { name, span, value_span } => rn_let(c, name, span, value_span),
        DocItemV::Node(n) => rn_node(c, n),
        DocItemV::Comment { .. } => None,
    }
}

pub open spec fn rn_items(c: RefCtx, items: Seq<DocItemV>, i: int) -> Option<SiteV>
    decreases items.len() - i,
{
    if i < 0 || i >= items.len() {
        None
    } else if rn_item(c, items[i]) is Some {
        rn_item(c, items[i])
    } else {
        rn_items(c, items, i + 1)
    }
}

pub open spec fn rn_docs(c: RefCtx, docs: Seq<DocV>, d: int) -> Option<SiteV>
    decreases docs.len() - d,
{
    if d < 0 || d >= docs.len() {
        None
    } else if rn_items(c, docs[d].items, 0) is Some {
        rn_items(c, docs[d].items, 0)
    } else {
        rn_docs(c, docs, d + 1)
    }
}

/// What can be renamed at the offset: a key whose name is under it, else the first item of
/// the current file that offers something there.
pub open spec fn prepared(c: RefCtx) -> Option<SiteV> {
    match key_at(defs_of(c.cur), c.offset, 0) {
        Some(d) => Some((key_target(c.cur.uri, d), d.name, d.selection_span)),
        None => rn_docs(c, docs_of(c.cur), 0),
    }
}

/// A new name is made of identifier characters, at least one.
pub open spec fn valid_name(n: Seq<u8>) -> bool {
    n.len() > 0 && forall|i: int| 0 <= i < n.len() ==> is_ident_byte(#[trigger] n[i])
}

/// A key path without its last segment.
pub open spec fn parent_of(p: Seq<u8>) -> Seq<u8> {
    match rfind_byte(p, 0, p.len() as int, 0x2e) {
        Some(i) => p.subrange(0, i),
        None => p,
    }
}

pub open spec fn target_uri(t: RefTargetV) -> Seq<char> {
    match t {
        RefTargetV::Let(u, _) => u,
        RefTargetV::Alias(u, _) => u,
        RefTargetV::Import(u) => u,
        RefTargetV::TypeLike(_) => seq![],
        RefTargetV::KeyPath(u, _) => u,
    }
}

/// Definition `d` of the target's file already has the new name: another let binding or
/// alias for those, another key under the same parent for a key.
pub open spec fn clashes(t: RefTargetV, name: Seq<u8>, new_name: Seq<u8>, d: DefV) -> bool {
    match t {
        RefTargetV::KeyPath(_, p) => d.kind == DefinitionKind::Key && d.name == new_name && d.name != name && parent_of(
            path_text(d.path, d.path.len() as int),
        ) == parent_of(p),
        _ => (d.kind == DefinitionKind::Let || d.kind == DefinitionKind::Alias) && d.name == new_name && d.name != name,
    }
}

/// Some definition of file `f` clashes with the new name.
pub open spec fn has_clash(f: FileV, t: RefTargetV, name: Seq<u8>, new_name: Seq<u8>) -> bool {
    exists|j: int| 0 <= j < defs_of(f).len() && clashes(t, name, new_name, #[trigger] defs_of(f)[j])
}

/// What the target's file says against the new name: nothing, a clash, or that the file is
/// not in the workspace.
pub open spec fn conflict(fs: Seq<FileV>, s: SiteV, new_name: Seq<u8>) -> Option<RenameError> {
    match file_named(fs, target_uri(s.0), 0) {
        None => Some(RenameError::UnsupportedRange),
        Some(f) => if has_clash(f, s.0, s.1, new_name) {
            Some(RenameError::Conflict)
        } else {
            None
        },
    }
}

pub open spec fn fctx(f: FileV, t: RefTargetV, folders: Seq<Seq<char>>, config: LumalsConfig) -> FileCtx {
    FileCtx { f, target: t, folders, config }
}

/// Every span to rename converts to a range of its file.
pub open spec fn spans_convert(fs: Seq<FileV>, t: RefTargetV, folders: Seq<Seq<char>>, config: LumalsConfig) -> bool {
    forall|i: int, j: int|
        0 <= i < fs.len() && 0 <= j < file_spans(fctx(fs[i], t, folders, config)).len() ==> (span_range(
            utf8(fs[i].text),
            #[trigger] file_spans(#[trigger] fctx(fs[i], t, folders, config))[j],
        ) is Some)
}

/// The ranges that the spans to rename in file `f` convert to.
pub open spec fn file_ranges(f: FileV, t: RefTargetV, folders: Seq<Seq<char>>, config: LumalsConfig) -> Set<Range> {
    let ss = file_spans(fctx(f, t, folders, config));
    Set::new(|r: Range| exists|j: int| 0 <= j < ss.len() && span_range(utf8(f.text), #[trigger] ss[j]) == Some(r))
}

/// File by file among the first `k`, those with something to rename, and their ranges.
pub open spec fn changes_of(fs: Seq<FileV>, t: RefTargetV, folders: Seq<Seq<char>>, config: LumalsConfig, k: int) -> Seq<(Seq<char>, Set<Range>)>
    decreases k,
{
    if k <= 0 {
        seq![]
    } else if file_spans(fctx(fs[k - 1], t, folders, config)).len() > 0 {
        changes_of(fs, t, folders, config, k - 1).push((fs[k - 1].uri, file_ranges(fs[k - 1], t, folders, config)))
    } else {
        changes_of(fs, t, folders, config, k - 1)
    }
}

pub open spec fn edit_ranges(v: Seq<RenameEdit>) -> Set<Range> {
    Set::new(|r: Range| exists|j: int| 0 <= j < v.len() && (#[trigger] v[j]).range == r)
}

pub open spec fn changes_view(ch: Seq<(String, Vec<RenameEdit>)>) -> Seq<(Seq<char>, Set<Range>)> {
    ch.map_values(|e: (String, Vec<RenameEdit>)| (e.0@, edit_ranges(e.1@)))
}

/// Each file's edits are in order of range, each range once, and write the new name.
pub open spec fn edits_well_formed(ch: Seq<(String, Vec<RenameEdit>)>, new_name: Seq<char>) -> bool {
    forall|i: int| 0 <= i < ch.len() ==> {
        let v = (#[trigger] ch[i]).1@;
        &&& forall|a: int, b: int| 0 <= a < b < v.len() ==> crate::references::range_lt(#[trigger] v[a].range, #[trigger] v[b].range)
        &&& forall|a: int| 0 <= a < v.len() ==> (#[trigger] v[a]).new_text@ == new_name
    }
}

/// The outcome of a rename: the name is checked, then the position, then conflicts, then
/// that every span converts; the edits rename every span of every file of the workspace.
pub open spec fn rename_outcome(
    cur: FileV,
    files: Seq<FileV>,
    offset: int,
    folders: Seq<Seq<char>>,
    config: LumalsConfig,
    new_name: Seq<u8>,
) -> Result<Seq<(Seq<char>, Set<Range>)>, RenameError> {
    let fs = ref_corpus(cur, files);
    if !valid_name(new_name) {
        Err(RenameError::InvalidName)
    } else {
        match prepared(RefCtx { cur, offset, folders, config }) {
            None => Err(RenameError::UnsupportedRange),
            Some(s) => match conflict(fs, s, new_name) {
                Some(e) => Err(e),
                None => if !spans_convert(fs, s.0, folders, config) {
                    Err(RenameError::UnsupportedRange)
                } else {
                    Ok(changes_of(fs, s.0, folders, config, fs.len() as int))
                },
            },
        }
    }
}

// ---------------------------------------------------------------------------
// Executable parts

pub open spec fn site_view(s: Option<(RefTarget, String, SourceSpan)>) -> Option<SiteV> {
    match s {
        Some((t, n, sp)) => Some((t.view_target(), utf8(n@), sp)),
        None => None,
    }
}

fn occurrence_exec(cx: &Current, span: SourceSpan, Ghost(c): Ghost<RefCtx>) -> (r: Option<(Vec<Vec<u8>>, IdentifierPath, usize, SourceSpan)>)
    requires
        crate::references::current_ok(*cx, c),
    ensures
        match occurrence(c, span) {
            Some((segs, sel, ss)) => r matches Some((v, p, k, s)) && crate::references::byte_views(v@) == segs && k == sel
                && s == ss && v@.len() > 0 && p.view_path() == segs,
            None => r is None,
        },
{
    let ghost norm = norm_of(c.cur);
    match identifier_path_at_span(span, cx.offset, cx.source) {
        Some((ps, p)) => {
            proof {
                let t = source_slice(norm, c.cur.file_id, span)->Some_0;
                let rel = c.offset - span.start;
                crate::navigation::lemma_path_start(t, rel);
                crate::navigation::lemma_path_end(t, rel);
            }
            let segs = crate::references::path_bytes(&p);
            let b = cx.source.text.as_str().as_bytes();
            let sel = crate::references::count_dots_exec(b, ps.start, cx.offset);
            let tok = vstd::slice::slice_subrange(b, ps.start, ps.end);
            let rs = crate::references::runs_exec(tok);
            if sel < rs.len() {
                let (a, e) = rs[sel];
                assert(crate::references::pairs_view(rs@)[sel as int] == (a as int, e as int));
                Some((segs, p, sel, SourceSpan::new(span.file_id, ps.start + a, ps.start + e)))
            } else {
                None
            }
        },
        None => None,
    }
}

fn site_exec(cx: &Current, segs: &Vec<Vec<u8>>, names: &IdentifierPath, sel: usize, sspan: SourceSpan, Ghost(c): Ghost<RefCtx>) -> (r: Option<(RefTarget, String, SourceSpan)>)
    requires
        crate::references::current_ok(*cx, c),
        segs@.len() > 0,
        names.view_path() == crate::references::byte_views(segs@),
    ensures
        site_view(r) == site(c, crate::references::byte_views(segs@), sel as int, sspan),
{
    let ghost sv = crate::references::byte_views(segs@);
    let e = &cx.entry;
    let base = segs[0].as_slice();
    assert(sv[0] == base@);
    if sel == 0 {
        if first_def_exec(&e.defs, DefinitionKind::Alias, base).is_some() {
            assert(names.view_path()[0] == utf8(names.segments@[0]@));
            return Some((RefTarget::Alias(e.uri.clone(), segs[0].clone()), names.segments[0].clone(), sspan));
        }
        if first_def_exec(&e.defs, DefinitionKind::Let, base).is_some() {
            assert(names.view_path()[0] == utf8(names.segments@[0]@));
            return Some((RefTarget::Let(e.uri.clone(), segs[0].clone()), names.segments[0].clone(), sspan));
        }
        if segs.len() == 1 {
            if let Some(i) = first_def_exec(&e.defs, DefinitionKind::Key, base) {
                let d = &e.defs[i];
                return Some((crate::references::key_target_exec(&e.uri, d), d.name.clone(), sspan));
            }
        }
    }
    let k = if sel < segs.len() - 1 { sel + 1 } else { segs.len() };
    match crate::references::key_path_via_exec(e.uri.as_str(), e.text.as_str(), e.file_id, &e.defs, cx.folders, cx.config, segs, k) {
        Some((x, p)) => {
            if sel < segs.len() {
                assert(sv[sel as int] == segs@[sel as int]@);
                assert(names.view_path()[sel as int] == utf8(names.segments@[sel as int]@));
                Some((RefTarget::KeyPath(x, p), names.segments[sel].clone(), sspan))
            } else {
                None
            }
        },
        None => None,
    }
}

fn occ_site_exec(cx: &Current, span: SourceSpan, Ghost(c): Ghost<RefCtx>) -> (r: Option<(RefTarget, String, SourceSpan)>)
    requires
        crate::references::current_ok(*cx, c),
    ensures
        site_view(r) == occ_site(c, span),
{
    match occurrence_exec(cx, span, Ghost(c)) {
        Some((segs, names, sel, ss)) => site_exec(cx, &segs, &names, sel, ss, Ghost(c)),
        None => None,
    }
}

fn rn_dir_exec(cx: &Current, name: &str, span: SourceSpan, value: &Option<String>, Ghost(c): Ghost<RefCtx>) -> (r: Option<(RefTarget, String, SourceSpan)>)
    requires
        crate::references::current_ok(*cx, c),
    ensures
        site_view(r) == rn_dir(c, utf8(name@), span, crate::ast::opt_text(*value)),
{
    match crate::navigation::alias_span_exec(cx.source, name, span, value) {
        Some(sp) => {
            if sp.start <= cx.offset && cx.offset < sp.end {
                match cx.source.slice(sp) {
                    Some(a) => {
                        Some((RefTarget::Alias(cx.entry.uri.clone(), crate::goto::bytes_of(a)), a.to_owned(), sp))
                    },
                    None => None,
                }
            } else {
                None
            }
        },
        None => None,
    }
}

fn rn_let_exec(cx: &Current, name: &str, span: SourceSpan, value_span: Option<SourceSpan>, Ghost(c): Ghost<RefCtx>) -> (r: Option<(RefTarget, String, SourceSpan)>)
    requires
        crate::references::current_ok(*cx, c),
    ensures
        site_view(r) == rn_let(c, utf8(name@), span, value_span),
{
    let nb = name.as_bytes();
    let s = span.start;
    let off = cx.offset;
    if s <= usize::MAX - 4 && nb.len() <= usize::MAX - 4 - s && span.end >= s + 4 + nb.len() && s + 4 <= off
        && off < s + 4 + nb.len() {
        return Some((
            RefTarget::Let(cx.entry.uri.clone(), crate::goto::bytes_of(name)),
            name.to_owned(),
            SourceSpan::new(span.file_id, s + 4, s + 4 + nb.len()),
        ));
    }
    match value_span {
        Some(vs) => {
            if !(vs.start <= off && off < vs.end) {
                return None;
            }
            match crate::navigation::trimmed_span_exec(cx.source, vs) {
                Some(ts) => occ_site_exec(cx, ts, Ghost(c)),
                None => None,
            }
        },
        None => None,
    }
}

fn rn_leaf_exec(cx: &Current, value: &Option<Box<Node>>, Ghost(c): Ghost<RefCtx>) -> (r: Option<(RefTarget, String, SourceSpan)>)
    requires
        crate::references::current_ok(*cx, c),
    ensures
        site_view(r) == rn_leaf(c, crate::ast::opt_leaf(*value)),
{
    match value {
        Some(n) => match &**n {
            Node::Scalar(sc) => {
                if sc.kind == ScalarKind::LuaExpression {
                    occ_site_exec(cx, sc.span, Ghost(c))
                } else {
                    None
                }
            },
            _ => None,
        },
        None => None,
    }
}

fn rn_node_exec(cx: &Current, node: &Node, Ghost(c): Ghost<RefCtx>) -> (r: Option<(RefTarget, String, SourceSpan)>)
    requires
        crate::references::current_ok(*cx, c),
    ensures
        site_view(r) == rn_node(c, node.view_node()),
{
    match node {
        Node::Mapping(m) => {
            let ghost es = m.entries@.map_values(|e: MappingEntry| e.view_entry());
            let mut i: usize = 0;
            while i < m.entries.len()
                invariant
                    crate::references::current_ok(*cx, c),
                    i <= m.entries@.len(),
                    es == m.entries@.map_values(|e: MappingEntry| e.view_entry()),
                    node.view_node() == (NodeV::Mapping { span: m.span, entries: es }),
                    rn_entries(c, es, i as int) == rn_entries(c, es, 0),
                decreases m.entries@.len() - i,
            {
                let e = &m.entries[i];
                assert(es[i as int] == e.view_entry());
                if e.key_span.start <= cx.offset && cx.offset < e.key_span.end {
                    if let Some(j) = crate::references::key_def_at_exec(&cx.entry.defs, e.key_span) {
                        let d = &cx.entry.defs[j];
                        return Some((crate::references::key_target_exec(&cx.entry.uri, d), d.name.clone(), e.key_span));
                    }
                }
                let v = rn_leaf_exec(cx, &e.value, Ghost(c));
                if v.is_some() {
                    return v;
                }
                i = i + 1;
            }
            None
        },
        Node::Sequence(q) => {
            let ghost its = q.items@.map_values(|i: crate::ast::SequenceItem| i.view_item());
            let mut i: usize = 0;
            while i < q.items.len()
                invariant
                    crate::references::current_ok(*cx, c),
                    i <= q.items@.len(),
                    its == q.items@.map_values(|i: crate::ast::SequenceItem| i.view_item()),
                    rn_seq(c, its, i as int) == rn_seq(c, its, 0),
                    node.view_node() == (NodeV::Sequence { span: q.span, items: its }),
                decreases q.items@.len() - i,
            {
                assert(its[i as int] == q.items@[i as int].view_item());
                let v = rn_leaf_exec(cx, &q.items[i].value, Ghost(c));
                if v.is_some() {
                    return v;
                }
                i = i + 1;
            }
            None
        },
        Node::Scalar(sc) => {
            if sc.kind == ScalarKind::LuaExpression {
                occ_site_exec(cx, sc.span, Ghost(c))
            } else {
                None
            }
        },
        Node::Tag(t) => rn_leaf_exec(cx, &t.value, Ghost(c)),
        _ => None,
    }
}

fn rn_item_exec(cx: &Current, item: &DocumentItem, Ghost(c): Ghost<RefCtx>) -> (r: Option<(RefTarget, String, SourceSpan)>)
    requires
        crate::references::current_ok(*cx, c),
    ensures
        site_view(r) == rn_item(c, item.view_item()),
{
    match item {
        DocumentItem::Directive(d) => rn_dir_exec(cx, d.name.as_str(), d.span, &d.value, Ghost(c)),
        DocumentItem::Let(l) => rn_let_exec(cx, l.name.as_str(), l.span, l.value_span, Ghost(c)),
        DocumentItem::Node(n) => rn_node_exec(cx, n, Ghost(c)),
        DocumentItem::Comment(_) => None,
    }
}

fn rn_docs_exec(cx: &Current, documents: &Vec<Document>, Ghost(c): Ghost<RefCtx>) -> (r: Option<(RefTarget, String, SourceSpan)>)
    requires
        crate::references::current_ok(*cx, c),
    ensures
        site_view(r) == rn_docs(c, documents@.map_values(|d: Document| d.view_doc()), 0),
{
    let ghost docs = documents@.map_values(|d: Document| d.view_doc());
    let mut d: usize = 0;
    while d < documents.len()
        invariant
            crate::references::current_ok(*cx, c),
            d <= documents@.len(),
            docs == documents@.map_values(|d: Document| d.view_doc()),
            rn_docs(c, docs, d as int) == rn_docs(c, docs, 0),
        decreases documents@.len() - d,
    {
        let doc = &documents[d];
        let ghost items = doc.view_doc().items;
        assert(docs[d as int] == doc.view_doc());
        let mut i: usize = 0;
        while i < doc.items.len()
            invariant
                crate::references::current_ok(*cx, c),
                i <= doc.items@.len(),
                items == doc.view_doc().items,
                items.len() == doc.items@.len(),
                rn_items(c, items, i as int) == rn_items(c, items, 0),
                docs == documents@.map_values(|d: Document| d.view_doc()),
                d < docs.len(),
                docs[d as int].items == items,
                rn_docs(c, docs, d as int) == rn_docs(c, docs, 0),
            decreases doc.items@.len() - i,
        {
            assert(items[i as int] == doc.items@[i as int].view_item());
            let r = rn_item_exec(cx, &doc.items[i], Ghost(c));
            if r.is_some() {
                return r;
            }
            i = i + 1;
        }
        d = d + 1;
    }
    None
}

fn prepared_exec(cx: &Current, documents: &Vec<Document>, Ghost(c): Ghost<RefCtx>) -> (r: Option<(RefTarget, String, SourceSpan)>)
    requires
        crate::references::current_ok(*cx, c),
        documents@.map_values(|d: Document| d.view_doc()) == docs_of(c.cur),
    ensures
        site_view(r) == prepared(c),
{
    match crate::references::key_at_exec(&cx.entry.defs, cx.offset) {
        Some(i) => {
            let d = &cx.entry.defs[i];
            Some((crate::references::key_target_exec(&cx.entry.uri, d), d.name.clone(), d.selection_span))
        },
        None => rn_docs_exec(cx, documents, Ghost(c)),
    }
}

fn valid_name_exec(n: &[u8]) -> (r: bool)
    ensures
        r == valid_name(n@),
{
    if n.len() == 0 {
        return false;
    }
    let mut i: usize = 0;
    while i < n.len()
        invariant
            i <= n@.len(),
            forall|j: int| 0 <= j < i ==> is_ident_byte(#[trigger] n@[j]),
        decreases n@.len() - i,
    {
        if !crate::navigation::is_ident_byte_exec(n[i]) {
            return false;
        }
        i = i + 1;
    }
    true
}

fn parent_of_exec(p: &[u8]) -> (r: &[u8])
    ensures
        r@ == parent_of(p@),
{
    proof {
        crate::text::lemma_rfind_byte_bounds(p@, 0, p@.len() as int, 0x2e);
    }
    match crate::text::rfind_byte_exec(p, 0, p.len(), 0x2e) {
        Some(i) => vstd::slice::slice_subrange(p, 0, i),
        None => p,
    }
}

fn clashes_exec(t: &RefTarget, name: &[u8], new_name: &[u8], d: &Definition) -> (r: bool)
    ensures
        r == clashes(t.view_target(), name@, new_name@, d.view_def()),
{
    let dn = d.name.as_str().as_bytes();
    match t {
        RefTarget::KeyPath(_, p) => {
            if !(d.kind == DefinitionKind::Key && bytes_eq(dn, new_name) && !bytes_eq(dn, name)) {
                return false;
            }
            let tx = d.path.to_text();
            bytes_eq(parent_of_exec(tx.as_str().as_bytes()), parent_of_exec(p.as_slice()))
        },
        _ => (d.kind == DefinitionKind::Let || d.kind == DefinitionKind::Alias) && bytes_eq(dn, new_name) && !bytes_eq(dn, name),
    }
}

fn conflict_exec(es: &Vec<Entry>, t: &RefTarget, name: &[u8], new_name: &[u8], Ghost(fs): Ghost<Seq<FileV>>) -> (r: Option<RenameError>)
    requires
        entries_ok(es@, fs),
    ensures
        r == conflict(fs, (t.view_target(), name@, SourceSpan { file_id: FileId(0), start: 0, end: 0 }), new_name@),
{
    let empty = String::new();
    let u: &str = match t {
        RefTarget::Let(u, _) => u.as_str(),
        RefTarget::Alias(u, _) => u.as_str(),
        RefTarget::Import(u) => u.as_str(),
        RefTarget::TypeLike(_) => empty.as_str(),
        RefTarget::KeyPath(u, _) => u.as_str(),
    };
    assert(u@ == target_uri(t.view_target()));
    let i = match crate::goto::file_named_exec(es, u, Ghost(fs)) {
        Some(i) => i,
        None => return Some(RenameError::UnsupportedRange),
    };
    let ghost f = fs[i as int];
    let e = &es[i];
    assert(entry_ok(*e, f));
    let mut j: usize = 0;
    while j < e.defs.len()
        invariant
            entry_ok(*e, f),
            file_named(fs, target_uri(t.view_target()), 0) == Some(f),
            j <= e.defs@.len(),
            forall|k: int| 0 <= k < j ==> !clashes(t.view_target(), name@, new_name@, #[trigger] defs_of(f)[k]),
        decreases e.defs@.len() - j,
    {
        assert(defs_of(f)[j as int] == e.defs@[j as int].view_def());
        if clashes_exec(t, name, new_name, &e.defs[j]) {
            assert(defs_view(e.defs@).len() == e.defs@.len());
            assert(0 <= j < defs_of(f).len());
            assert(clashes(t.view_target(), name@, new_name@, defs_of(f)[j as int]));
            assert(file_named(fs, target_uri(t.view_target()), 0) == Some(f));
            assert(has_clash(f, t.view_target(), name@, new_name@));
            return Some(RenameError::Conflict);
        }
        j = j + 1;
    }
    None
}

/// The edits of one file, in order of range, each range once; none when a span does not
/// convert.
fn file_edits(sc: &Scan, new_name: &str, Ghost(x): Ghost<FileCtx>) -> (r: Option<Vec<RenameEdit>>)
    requires
        crate::references::scan_ok(*sc, x),
    ensures
        ({
            let ss = file_spans(x);
            let raw = utf8(x.f.text);
            match r {
                None => exists|j: int| 0 <= j < ss.len() && span_range(raw, #[trigger] ss[j]) is None,
                Some(v) => {
                    &&& forall|j: int| 0 <= j < ss.len() ==> span_range(raw, #[trigger] ss[j]) is Some
                    &&& edit_ranges(v@) == file_ranges(x.f, x.target, x.folders, x.config)
                    &&& (v@.len() > 0 <==> ss.len() > 0)
                    &&& forall|a: int, b: int| 0 <= a < b < v@.len() ==> crate::references::range_lt(#[trigger] v@[a].range, #[trigger] v@[b].range)
                    &&& forall|a: int| 0 <= a < v@.len() ==> (#[trigger] v@[a]).new_text@ == new_name@
                },
            }
        }),
{
    let ghost ss = file_spans(x);
    let ghost raw = utf8(x.f.text);
    let ghost uv = x.f.uri;
    let mut spans: Vec<SourceSpan> = Vec::new();
    crate::references::file_spans_exec(&mut spans, sc, Ghost(x));
    assert(spans@ =~= ss);
    let mut locs: Vec<Location> = Vec::new();
    assert(locs_view(locs@).to_set() =~= Set::new(|l: LocV| l.0 == uv && exists|j: int| 0 <= j < 0 && span_range(raw, #[trigger] ss[j]) == Some(l.1)));
    let mut k: usize = 0;
    while k < spans.len()
        invariant
            crate::references::scan_ok(*sc, x),
            spans@ == ss,
            ss == file_spans(x),
            raw == utf8(x.f.text),
            uv == x.f.uri,
            k <= spans@.len(),
            forall|j: int| 0 <= j < k ==> span_range(raw, #[trigger] ss[j]) is Some,
            crate::references::sorted_locs(locs_view(locs@)),
            locs_view(locs@).to_set() == Set::new(|l: LocV| l.0 == uv && exists|j: int| 0 <= j < k && span_range(raw, #[trigger] ss[j]) == Some(l.1)),
        decreases spans@.len() - k,
    {
        let ghost before = locs_view(locs@).to_set();
        match span_range_exec(sc.entry.text.as_str(), spans[k]) {
            None => {
                assert(span_range(raw, ss[k as int]) is None);
                return None;
            },
            Some(rg) => {
                crate::references::insert_sorted(&mut locs, Location { uri: sc.entry.uri.clone(), range: rg });
                assert forall|l: LocV| #[trigger] locs_view(locs@).to_set().contains(l) == (l.0 == uv && exists|j: int| 0 <= j < k + 1 && span_range(raw, #[trigger] ss[j]) == Some(l.1)) by {
                    if l.0 == uv && exists|j: int| 0 <= j < k + 1 && span_range(raw, #[trigger] ss[j]) == Some(l.1) {
                        let j = choose|j: int| 0 <= j < k + 1 && span_range(raw, #[trigger] ss[j]) == Some(l.1);
                        if j < k {
                            assert(before.contains(l));
                        }
                    }
                    if before.contains(l) {
                        assert(l.0 == uv && exists|j: int| 0 <= j < k && span_range(raw, #[trigger] ss[j]) == Some(l.1));
                        let j = choose|j: int| 0 <= j < k && span_range(raw, #[trigger] ss[j]) == Some(l.1);
                        assert(0 <= j < k + 1);
                    }
                    if l == (uv, rg) {
                        assert(span_range(raw, ss[k as int]) == Some(l.1));
                    }
                }
                assert(locs_view(locs@).to_set() =~= Set::new(|l: LocV| l.0 == uv && exists|j: int| 0 <= j < k + 1 && span_range(raw, #[trigger] ss[j]) == Some(l.1)));
            },
        }
        k = k + 1;
    }
    let ghost lv = locs_view(locs@);
    let ghost lset = lv.to_set();
    assert forall|a: int| 0 <= a < lv.len() implies (#[trigger] lv[a]).0 == uv by {
        assert(lset.contains(lv[a]));
    }
    let mut out: Vec<RenameEdit> = Vec::new();
    let mut a: usize = 0;
    while a < locs.len()
        invariant
            a <= locs@.len(),
            lv == locs_view(locs@),
            out@.len() == a,
            forall|i: int| 0 <= i < a ==> (#[trigger] out@[i]).range == lv[i].1 && out@[i].new_text@ == new_name@,
        decreases locs@.len() - a,
    {
        assert(lv[a as int] == loc_view(locs@[a as int]));
        out.push(RenameEdit { range: locs[a].range, new_text: new_name.to_owned() });
        a = a + 1;
    }
    proof {
        crate::diagnostics::lemma_bytes_lt_order(utf8(uv), utf8(uv), utf8(uv), 0);
        assert forall|i: int, j: int| 0 <= i < j < out@.len() implies crate::references::range_lt(#[trigger] out@[i].range, #[trigger] out@[j].range) by {
            assert(crate::references::loc_lt(lv[i], lv[j]));
            assert(lv[i].0 == uv && lv[j].0 == uv);
        }
        let fr = file_ranges(x.f, x.target, x.folders, x.config);
        assert forall|r: Range| edit_ranges(out@).contains(r) <==> fr.contains(r) by {
            if edit_ranges(out@).contains(r) {
                let i = choose|i: int| 0 <= i < out@.len() && (#[trigger] out@[i]).range == r;
                assert(lset.contains(lv[i]));
                assert(lv[i] == (uv, r));
            }
            if fr.contains(r) {
                let j = choose|j: int| 0 <= j < ss.len() && span_range(raw, #[trigger] ss[j]) == Some(r);
                assert(lset.contains((uv, r)));
                let i = choose|i: int| 0 <= i < lv.len() && lv[i] == (uv, r);
                assert(out@[i].range == r);
            }
        }
        assert(edit_ranges(out@) =~= fr);
        if out@.len() > 0 {
            assert(edit_ranges(out@).contains(out@[0].range));
            assert(fr.contains(out@[0].range));
        }
        if ss.len() > 0 {
            let r0 = span_range(raw, ss[0])->Some_0;
            assert(fr.contains(r0));
            assert(edit_ranges(out@).contains(r0));
        }
    }
    Some(out)
}

/// Adds the edits of one file, when it has any; false when one of its spans does not convert.
fn add_file(out: &mut Vec<(String, Vec<RenameEdit>)>, sc: &Scan, new_name: &str, Ghost(x): Ghost<FileCtx>) -> (ok: bool)
    requires
        crate::references::scan_ok(*sc, x),
        edits_well_formed(old(out)@, new_name@),
    ensures
        ok ==> forall|j: int| 0 <= j < file_spans(x).len() ==> span_range(utf8(x.f.text), #[trigger] file_spans(x)[j]) is Some,
        !ok ==> exists|j: int| 0 <= j < file_spans(x).len() && span_range(utf8(x.f.text), #[trigger] file_spans(x)[j]) is None,
        ok ==> changes_view(final(out)@) == (if file_spans(x).len() > 0 {
            changes_view(old(out)@).push((x.f.uri, file_ranges(x.f, x.target, x.folders, x.config)))
        } else {
            changes_view(old(out)@)
        }),
        ok ==> edits_well_formed(final(out)@, new_name@),
{
    match file_edits(sc, new_name, Ghost(x)) {
        None => false,
        Some(v) => {
            if v.len() > 0 {
                let ghost prev = out@;
                out.push((sc.entry.uri.clone(), v));
                assert(changes_view(out@) =~= changes_view(prev).push((x.f.uri, file_ranges(x.f, x.target, x.folders, x.config))));
                assert forall|a: int| 0 <= a < out@.len() implies {
                    let w = (#[trigger] out@[a]).1@;
                    &&& forall|p: int, q: int| 0 <= p < q < w.len() ==> crate::references::range_lt(#[trigger] w[p].range, #[trigger] w[q].range)
                    &&& forall|p: int| 0 <= p < w.len() ==> (#[trigger] w[p]).new_text@ == new_name@
                } by {
                    if a < prev.len() {
                        assert(out@[a] == prev[a]);
                    }
                }
            }
            true
        },
    }
}

/// The edits of every file of the workspace; none when a span does not convert.
fn collect_changes(
    es: &Vec<Entry>,
    target: &RefTarget,
    folder_uris: &[String],
    config: &LumalsConfig,
    new_name: &str,
    Ghost(fs): Ghost<Seq<FileV>>,
) -> (r: Option<Vec<(String, Vec<RenameEdit>)>>)
    requires
        entries_ok(es@, fs),
        all_lexable(fs),
    ensures
        match r {
            Some(out) => spans_convert(fs, target.view_target(), strings_view(folder_uris@), *config) && changes_view(out@)
                == changes_of(fs, target.view_target(), strings_view(folder_uris@), *config, fs.len() as int)
                && edits_well_formed(out@, new_name@),
            None => !spans_convert(fs, target.view_target(), strings_view(folder_uris@), *config),
        },
{
    let ghost tv = target.view_target();
    let ghost folders = strings_view(folder_uris@);
    let mut out: Vec<(String, Vec<RenameEdit>)> = Vec::new();
    let mut i: usize = 0;
    assert(changes_view(out@) =~= changes_of(fs, tv, folders, *config, 0));
    while i < es.len()
        invariant
            entries_ok(es@, fs),
            all_lexable(fs),
            i <= es@.len(),
            tv == target.view_target(),
            folders == strings_view(folder_uris@),
            forall|a: int, j: int|
                0 <= a < i && 0 <= j < file_spans(fctx(fs[a], tv, folders, *config)).len() ==> (span_range(
                    utf8(fs[a].text),
                    #[trigger] file_spans(#[trigger] fctx(fs[a], tv, folders, *config))[j],
                ) is Some),
            changes_view(out@) == changes_of(fs, tv, folders, *config, i as int),
            edits_well_formed(out@, new_name@),
        decreases es@.len() - i,
    {
        let e = &es[i];
        assert(entry_ok(*e, fs[i as int]));
        assert(lexable(fs[i as int]));
        let sc = Scan {
            entry: e,
            source: SourceText::new(e.file_id, e.uri.as_str(), e.text.as_str()),
            target: target,
            folders: folder_uris,
            config,
        };
        let ghost x = fctx(fs[i as int], tv, folders, *config);
        if !add_file(&mut out, &sc, new_name, Ghost(x)) {
            assert(!spans_convert(fs, tv, folders, *config));
            return None;
        }
        assert(changes_view(out@) == changes_of(fs, tv, folders, *config, i + 1));
        i = i + 1;
    }
    assert(es@.len() == fs.len());
    Some(out)
}

/// Prepares a rename: the range of the name under the cursor and the name itself, when
/// something that can be renamed is there (see `prepared`).
pub fn prepare_rename(
    uri: &str,
    text: &str,
    file_id: FileId,
    offset: usize,
    files: &[(String, String, FileId)],
    folder_uris: &[String],
    config: &LumalsConfig,
) -> (r: Option<PreparedRename>)
    requires
        all_lexable(files_v(files@).push(FileV { uri: uri@, text: text@, file_id })),
    ensures
        match prepared(RefCtx { cur: FileV { uri: uri@, text: text@, file_id }, offset: offset as int, folders: strings_view(folder_uris@), config: *config }) {
            Some((_, name, span)) => match span_range(utf8(text@), span) {
                Some(rg) => r matches Some(p) && p.range == rg && utf8(p.placeholder@) == name,
                None => r is None,
            },
            None => r is None,
        },
{
    let ghost cur = FileV { uri: uri@, text: text@, file_id };
    let ghost c = RefCtx { cur, offset: offset as int, folders: strings_view(folder_uris@), config: *config };
    let ghost all = files_v(files@).push(cur);
    assert(all[all.len() - 1] == cur);
    assert(lexable(cur));
    let parsed = parse_fallback(file_id, uri, text);
    let ParsedFile::Fallback(ff) = &parsed.file;
    let cx = Current { entry: build_entry(uri, text, file_id), source: &parsed.source, offset, folders: folder_uris, config };
    match prepared_exec(&cx, &ff.ast.documents, Ghost(c)) {
        Some((_, name, span)) => match span_range_exec(text, span) {
            Some(rg) => Some(PreparedRename { range: rg, placeholder: name }),
            None => None,
        },
        None => None,
    }
}

pub open spec fn no_dot(n: Seq<u8>) -> bool {
    forall|i: int| 0 <= i < n.len() ==> n[i] != 0x2e
}

proof fn lemma_rfind_last_dot(q: Seq<u8>, n: Seq<u8>, h: int)
    requires
        no_dot(n),
        q.len() + 1 <= h <= q.len() + 1 + n.len(),
    ensures
        rfind_byte(q + seq![0x2eu8] + n, 0, h, 0x2e) == Some(q.len() as int),
    decreases h,
{
    let x = q + seq![0x2eu8] + n;
    if h > q.len() + 1 {
        assert(x[h - 1] == n[h - 1 - q.len() - 1]);
        lemma_rfind_last_dot(q, n, h - 1);
    } else {
        assert(x[h - 1] == 0x2e);
    }
}

/// The parent of `q.n` is `q` when `n` holds no dot.
pub proof fn lemma_parent_of_child(q: Seq<u8>, n: Seq<u8>)
    requires
        no_dot(n),
    ensures
        parent_of(q + seq![0x2eu8] + n) == q,
{
    let x = q + seq![0x2eu8] + n;
    lemma_rfind_last_dot(q, n, x.len() as int);
    assert(x.subrange(0, q.len() as int) =~= q);
}

/// What has parent `q` is `q` itself (holding no dot) or `q.n` for some `n` holding no dot.
pub proof fn lemma_parent_of_shape(x: Seq<u8>, q: Seq<u8>)
    requires
        parent_of(x) == q,
    ensures
        (x == q && no_dot(x)) || exists|n: Seq<u8>| no_dot(n) && x == q + seq![0x2eu8] + n,
{
    crate::text::lemma_rfind_byte_bounds(x, 0, x.len() as int, 0x2e);
    match rfind_byte(x, 0, x.len() as int, 0x2e) {
        Some(i) => {
            let n = x.subrange(i + 1, x.len() as int);
            assert(x =~= q + seq![0x2eu8] + n);
            assert(no_dot(n));
        },
        None => {},
    }
}

/// Renaming a key to the name that a sibling key (another key under the same parent, in the
/// target's file) already has is refused as a conflict.
pub proof fn law_key_rename_to_sibling_conflicts(
    cur: FileV,
    files: Seq<FileV>,
    offset: int,
    folders: Seq<Seq<char>>,
    config: LumalsConfig,
    new_name: Seq<u8>,
    parent: Seq<u8>,
    j: int,
)
    requires
        valid_name(new_name),
        prepared(RefCtx { cur, offset, folders, config }) is Some,
        prepared(RefCtx { cur, offset, folders, config })->Some_0.0 is KeyPath,
        prepared(RefCtx { cur, offset, folders, config })->Some_0.0->KeyPath_1 == parent + seq![0x2eu8]
            + prepared(RefCtx { cur, offset, folders, config })->Some_0.1,
        no_dot(prepared(RefCtx { cur, offset, folders, config })->Some_0.1),
        prepared(RefCtx { cur, offset, folders, config })->Some_0.1 != new_name,
        file_named(ref_corpus(cur, files), prepared(RefCtx { cur, offset, folders, config })->Some_0.0->KeyPath_0, 0) is Some,
        ({
            let f = file_named(ref_corpus(cur, files), prepared(RefCtx { cur, offset, folders, config })->Some_0.0->KeyPath_0, 0)->Some_0;
            &&& 0 <= j < defs_of(f).len()
            &&& defs_of(f)[j].kind == DefinitionKind::Key
            &&& defs_of(f)[j].name == new_name
            &&& path_text(defs_of(f)[j].path, defs_of(f)[j].path.len() as int) == parent + seq![0x2eu8] + new_name
        }),
    ensures
        rename_outcome(cur, files, offset, folders, config, new_name) == Err::<Seq<(Seq<char>, Set<Range>)>, RenameError>(
            RenameError::Conflict,
        ),
{
    let s = prepared(RefCtx { cur, offset, folders, config })->Some_0;
    let f = file_named(ref_corpus(cur, files), s.0->KeyPath_0, 0)->Some_0;
    lemma_parent_of_child(parent, s.1);
    assert(no_dot(new_name)) by {
        assert forall|i: int| 0 <= i < new_name.len() implies new_name[i] != 0x2e by {
            assert(is_ident_byte(new_name[i]));
        }
    }
    lemma_parent_of_child(parent, new_name);
    assert(clashes(s.0, s.1, new_name, defs_of(f)[j]));
    assert(has_clash(f, s.0, s.1, new_name));
}

/// A key rename refused as a conflict names a key of the target's file that has the new
/// name and stands under the same parent: keys under other parents never conflict.
pub proof fn law_key_conflict_is_a_sibling(
    cur: FileV,
    files: Seq<FileV>,
    offset: int,
    folders: Seq<Seq<char>>,
    config: LumalsConfig,
    new_name: Seq<u8>,
    parent: Seq<u8>,
)
    requires
        rename_outcome(cur, files, offset, folders, config, new_name) == Err::<Seq<(Seq<char>, Set<Range>)>, RenameError>(
            RenameError::Conflict,
        ),
        prepared(RefCtx { cur, offset, folders, config }) is Some,
        prepared(RefCtx { cur, offset, folders, config })->Some_0.0 is KeyPath,
        prepared(RefCtx { cur, offset, folders, config })->Some_0.0->KeyPath_1 == parent + seq![0x2eu8]
            + prepared(RefCtx { cur, offset, folders, config })->Some_0.1,
        no_dot(prepared(RefCtx { cur, offset, folders, config })->Some_0.1),
    ensures
        file_named(ref_corpus(cur, files), prepared(RefCtx { cur, offset, folders, config })->Some_0.0->KeyPath_0, 0) is Some,
        ({
            let f = file_named(ref_corpus(cur, files), prepared(RefCtx { cur, offset, folders, config })->Some_0.0->KeyPath_0, 0)->Some_0;
            exists|j: int|
                0 <= j < defs_of(f).len() && (#[trigger] defs_of(f)[j]).kind == DefinitionKind::Key && defs_of(f)[j].name
                    == new_name && defs_of(f)[j].name != prepared(RefCtx { cur, offset, folders, config })->Some_0.1 && (
                path_text(defs_of(f)[j].path, defs_of(f)[j].path.len() as int) == parent || exists|n: Seq<u8>|
                    no_dot(n) && path_text(defs_of(f)[j].path, defs_of(f)[j].path.len() as int) == parent + seq![0x2eu8] + n)
        }),
{
    let s = prepared(RefCtx { cur, offset, folders, config })->Some_0;
    let fs = ref_corpus(cur, files);
    lemma_parent_of_child(parent, s.1);
    assert(conflict(fs, s, new_name) == Some(RenameError::Conflict));
    let f = file_named(fs, s.0->KeyPath_0, 0)->Some_0;
    assert(has_clash(f, s.0, s.1, new_name));
    let j = choose|j: int| 0 <= j < defs_of(f).len() && clashes(s.0, s.1, new_name, #[trigger] defs_of(f)[j]);
    let x = path_text(defs_of(f)[j].path, defs_of(f)[j].path.len() as int);
    lemma_parent_of_shape(x, parent);
    assert(defs_of(f)[j].kind == DefinitionKind::Key);
}

/// Renames what stands at the offset to `new_name` across the workspace (`files`, then the
/// current file where no file of `files` has its URI): the edits of each file that has
/// something to rename, or the error `rename_outcome` names.
pub fn rename(
    uri: &str,
    text: &str,
    file_id: FileId,
    offset: usize,
    files: &[(String, String, FileId)],
    folder_uris: &[String],
    config: &LumalsConfig,
    new_name: &str,
) -> (r: Result<WorkspaceEdit, RenameError>)
    requires
        all_lexable(files_v(files@).push(FileV { uri: uri@, text: text@, file_id })),
    ensures
        match rename_outcome(
            FileV { uri: uri@, text: text@, file_id },
            files_v(files@),
            offset as int,
            strings_view(folder_uris@),
            *config,
            utf8(new_name@),
        ) {
            Ok(ch) => r matches Ok(w) && changes_view(w.changes@) == ch && edits_well_formed(w.changes@, new_name@),
            Err(e) => r matches Err(x) && x == e,
        },
{
    let ghost cur = FileV { uri: uri@, text: text@, file_id };
    let ghost c = RefCtx { cur, offset: offset as int, folders: strings_view(folder_uris@), config: *config };
    let ghost all = files_v(files@).push(cur);
    let ghost folders = strings_view(folder_uris@);
    let nn = new_name.as_bytes();
    if !valid_name_exec(nn) {
        return Err(RenameError::InvalidName);
    }
    assert(all[all.len() - 1] == cur);
    assert(lexable(cur));
    let parsed = parse_fallback(file_id, uri, text);
    let ParsedFile::Fallback(ff) = &parsed.file;
    let cx = Current { entry: build_entry(uri, text, file_id), source: &parsed.source, offset, folders: folder_uris, config };
    let (target, name, _span) = match prepared_exec(&cx, &ff.ast.documents, Ghost(c)) {
        Some(s) => s,
        None => return Err(RenameError::UnsupportedRange),
    };
    let ghost tv = target.view_target();
    let es = crate::references::build_ref_corpus(uri, text, file_id, files);
    let ghost fs = ref_corpus(cur, files_v(files@));
    proof {
        crate::references::lemma_first_of_each(all, all.len() as int);
    }
    if let Some(e) = conflict_exec(&es, &target, name.as_str().as_bytes(), nn, Ghost(fs)) {
        return Err(e);
    }
    match collect_changes(&es, &target, folder_uris, config, new_name, Ghost(fs)) {
        Some(out) => Ok(WorkspaceEdit { changes: out }),
        None => Err(RenameError::UnsupportedRange),
    }
}

} // verus!
