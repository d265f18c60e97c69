//! Inlay hints: profile effects, import targets, binding values, key paths and types.
pub mod values;
pub mod spans;

use vstd::prelude::*;
use vstd::utf8::valid_utf8;

use crate::ast::{DocItemV, DocV, Document, DocumentItem, EntryV, ItemV, LeafV, MappingEntry, Node, NodeV, SequenceItem};
use crate::code_actions::common::source_slice;
use crate::config::InlayHintsSettings;
use crate::diagnostics::{bytes_lt, bytes_lt_exec};
use crate::formatting::crlf_to_lf;
use crate::hover::items::{target_exec, target_of};
use crate::hover::key_path::{key_path, key_path_spec};
use crate::hover::markdown::{lit, push_lit};
use crate::inlay_hints::spans::{
    dir_target_span, dir_target_span_exec, dir_value_span, dir_value_span_exec, let_name_span, let_name_span_exec,
    trimmed_value, trimmed_value_exec,
};
use crate::inlay_hints::values::{
    infer_inline_value_type, inline_value_type, scalar_hint_type, scalar_hint_type_exec,
};
use crate::lexer::lexes;
use crate::parser::fallback::parse_file_spec;
use crate::parser::parse_fallback;
use crate::position::{line_slice_ok, offset_position, position_offset, LineIndex, Position, Range};
use crate::semantic::trim_range;
use crate::syntax::{FileId, ParsedFile, SourceSpan, SourceText};
use crate::text::{bytes_to_string, push_text, str_eq, utf8};

verus! {

broadcast use vstd::utf8::valid_utf8_concat;

/// What a hint stands for: a type, or a parameter-like annotation.
#[derive(Debug, Clone, Copy, PartialEq, Eq, Structural)]
pub enum InlayHintKind {
    Type,
    Parameter,
}

/// A hint: where it is shown, its text and its kind.
#[derive(Debug, Clone, PartialEq, Eq)]
pub struct InlayHint {
    pub position: Position,
    pub label: String,
    pub kind: InlayHintKind,
}

/// An import target that resolved, with the URI it resolved to.
#[derive(Debug, Clone, PartialEq, Eq)]
pub struct ResolvedImport {
    pub target: String,
    pub uri: String,
}

/// A request for the hints of a range of a document.
pub struct InlayHintsRequest<'a> {
    pub uri: &'a str,
    pub text: &'a str,
    pub file_id: FileId,
    pub range: Range,
    pub settings: &'a InlayHintsSettings,
    pub imports: &'a Vec<ResolvedImport>,
}

pub type HintV = (Position, Seq<u8>, InlayHintKind);

pub open spec fn hint_view(h: InlayHint) -> HintV {
    (h.position, utf8(h.label@), h.kind)
}

pub open spec fn hint_views(s: Seq<InlayHint>) -> Seq<HintV> {
    s.map_values(|h: InlayHint| hint_view(h))
}

/// What hints are made from: the text, its file, the settings, the byte range shown, and
/// the resolved import targets.
pub struct HintEnv {
    pub b: Seq<u8>,
    pub file_id: FileId,
    pub settings: InlayHintsSettings,
    pub start: int,
    pub end: int,
    pub imports: Seq<(Seq<u8>, Seq<u8>)>,
}

/// A hint after the anchor, when the anchor's end is in the range shown and a position
/// of the text.
pub open spec fn hint_at(env: HintEnv, anchor: SourceSpan, label: Seq<u8>, kind: InlayHintKind) -> Seq<HintV> {
    if anchor.end < env.start || anchor.end > env.end {
        seq![]
    } else {
        match offset_position(env.b, anchor.end) {
            Ok(p) => seq![(p, label, kind)],
            Err(_) => seq![],
        }
    }
}

/// The URI that an import target resolved to, from index `i` on.
pub open spec fn lookup(imports: Seq<(Seq<u8>, Seq<u8>)>, target: Seq<u8>, i: int) -> Option<Seq<u8>>
    decreases imports.len() - i,
{
    if i < 0 || i >= imports.len() {
        None
    } else if imports[i].0 == target {
        Some(imports[i].1)
    } else {
        lookup(imports, target, i + 1)
    }
}

/// A `@profile` directive shows the profile it activates; an `@import` or `@include`
/// shows where its target resolved.
pub open spec fn profile_hints(env: HintEnv, name: Seq<u8>, span: SourceSpan) -> Seq<HintV> {
    if env.settings.profile_effects && name == lit("@profile") {
        match dir_value_span(env.b, env.file_id, name, span) {
            None => seq![],
            Some(vs) => match source_slice(env.b, env.file_id, vs) {
                None => seq![],
                Some(v) => {
                    let (s, e) = trim_range(v, 0, v.len() as int);
                    if s == e {
                        seq![]
                    } else {
                        hint_at(
                            env,
                            vs,
                            lit("activates `") + v.subrange(s, e) + lit("` profile"),
                            InlayHintKind::Parameter,
                        )
                    }
                },
            },
        }
    } else {
        seq![]
    }
}

pub open spec fn import_hints(env: HintEnv, name: Seq<u8>, span: SourceSpan, value: Option<Seq<u8>>) -> Seq<HintV> {
    if env.settings.import_resolution && (name == lit("@import") || name == lit("@include")) {
        match value {
            None => seq![],
            Some(v) => match lookup(env.imports, target_of(v), 0) {
                None => seq![],
                Some(uri) => hint_at(
                    env,
                    match dir_target_span(env.b, env.file_id, name, span) {
                        Some(s) => s,
                        None => span,
                    },
                    lit("→ ") + uri,
                    InlayHintKind::Parameter,
                ),
            },
        }
    } else {
        seq![]
    }
}

/// A `@profile` directive shows the profile it activates; an `@import` or `@include`
/// shows where its target resolved.
pub open spec fn dir_hints(env: HintEnv, name: Seq<u8>, span: SourceSpan, value: Option<Seq<u8>>) -> Seq<HintV> {
    profile_hints(env, name, span) + import_hints(env, name, span, value)
}

/// A binding shows its trimmed value and the value's type after its name.
pub open spec fn let_hints(env: HintEnv, name: Seq<u8>, span: SourceSpan, value_span: Option<SourceSpan>) -> Seq<HintV> {
    if !env.settings.let_bindings {
        seq![]
    } else {
        match let_name_span(env.b, env.file_id, name, span) {
            None => seq![],
            Some(ns) => {
                let val = match value_span {
                    Some(vs) => trimmed_value(env.b, env.file_id, vs),
                    None => None,
                };
                let label = match val {
                    Some(v) => lit("= ") + v + lit(" : ") + utf8(inline_value_type(v)),
                    None => lit(": ") + lit("unknown"),
                };
                hint_at(env, ns, label, InlayHintKind::Type)
            },
        }
    }
}

/// A scalar shows its type.
pub open spec fn leaf_hints(env: HintEnv, l: Option<LeafV>) -> Seq<HintV> {
    match l {
        Some(LeafV::Scalar { kind, span, text }) => if env.settings.inferred_types {
            hint_at(env, span, lit(": ") + utf8(scalar_hint_type(kind, text)), InlayHintKind::Type)
        } else {
            seq![]
        },
        _ => seq![],
    }
}

/// Each key shows its dotted path (or itself), then its value's hints.
pub open spec fn entry_hints(env: HintEnv, es: Seq<EntryV>, k: int) -> Seq<HintV>
    decreases k,
{
    if k <= 0 {
        seq![]
    } else {
        let e = es[k - 1];
        entry_hints(env, es, k - 1) + (if env.settings.key_paths {
            hint_at(
                env,
                e.key_span,
                match key_path_spec(env.b, e.key_span.start as int) {
                    Some(p) => p,
                    None => e.key,
                },
                InlayHintKind::Parameter,
            )
        } else {
            seq![]
        }) + leaf_hints(env, e.value)
    }
}

pub open spec fn item_list_hints(env: HintEnv, items: Seq<ItemV>, k: int) -> Seq<HintV>
    decreases k,
{
    if k <= 0 {
        seq![]
    } else {
        item_list_hints(env, items, k - 1) + leaf_hints(env, items[k - 1].value)
    }
}

pub open spec fn node_hints(env: HintEnv, n: NodeV) -> Seq<HintV> {
    match n {
        NodeV::Mapping { entries, .. } => entry_hints(env, entries, entries.len() as int),
        NodeV::Sequence { items, .. } => item_list_hints(env, items, items.len() as int),
        NodeV::Leaf(l) => leaf_hints(env, Some(l)),
        NodeV::Tag { value, .. } => leaf_hints(env, value),
        _ => seq![],
    }
}

pub open spec fn item_hints(env: HintEnv, i: DocItemV) -> Seq<HintV> {
    match i {
        DocItemV::Directive { name, span, value } => dir_hints(env, name, span, value),
        DocItemV::Let { name, span, value_span } => let_hints(env, name, span, value_span),
        DocItemV::Node(n) => node_hints(env, n),
        DocItemV::Comment { .. } => seq![],
    }
}

pub open spec fn items_hints(env: HintEnv, items: Seq<DocItemV>, k: int) -> Seq<HintV>
    decreases k,
{
    if k <= 0 {
        seq![]
    } else {
        items_hints(env, items, k - 1) + item_hints(env, items[k - 1])
    }
}

pub open spec fn docs_hints(env: HintEnv, docs: Seq<DocV>, k: int) -> Seq<HintV>
    decreases k,
{
    if k <= 0 {
        seq![]
    } else {
        docs_hints(env, docs, k - 1) + items_hints(env, docs[k - 1].items, docs[k - 1].items.len() as int)
    }
}

/// `a` is shown before `b`: by line, column, then label.
pub open spec fn hint_before(a: HintV, b: HintV) -> bool {
    ||| a.0.line < b.0.line
    ||| (a.0.line == b.0.line && a.0.character < b.0.character)
    ||| (a.0.line == b.0.line && a.0.character == b.0.character && bytes_lt(a.1, b.1, 0))
}

pub open spec fn hint_pos(s: Seq<HintV>, x: HintV, p: int) -> int
    decreases s.len() - p,
{
    if p < 0 || p >= s.len() {
        s.len() as int
    } else if hint_before(x, s[p]) {
        p
    } else {
        hint_pos(s, x, p + 1)
    }
}

/// The hints in the order they are shown, ties kept in document order.
pub open spec fn sorted_hints(s: Seq<HintV>) -> Seq<HintV>
    decreases s.len(),
{
    if s.len() == 0 {
        seq![]
    } else {
        let r = sorted_hints(s.drop_last());
        r.insert(hint_pos(r, s.last(), 0), s.last())
    }
}

pub open spec fn imports_view(v: Seq<ResolvedImport>) -> Seq<(Seq<u8>, Seq<u8>)> {
    v.map_values(|r: ResolvedImport| (utf8(r.target@), utf8(r.uri@)))
}

/// The hints of a document's text for the range shown; none when hints are off or the
/// range is not in the text.
pub open spec fn hints_spec(
    raw: Seq<u8>,
    file_id: FileId,
    settings: InlayHintsSettings,
    range: Range,
    imports: Seq<(Seq<u8>, Seq<u8>)>,
) -> Option<Seq<HintV>> {
    let b = crlf_to_lf(raw, 0);
    if !settings.enabled {
        None
    } else {
        match (position_offset(b, range.start), position_offset(b, range.end)) {
            (Ok(start), Ok(end)) => {
                let docs = parse_file_spec(file_id, b).0;
                let env = HintEnv { b, file_id, settings, start: start as int, end: end as int, imports };
                Some(sorted_hints(docs_hints(env, docs, docs.len() as int)))
            },
            _ => None,
        }
    }
}

// ---------------------------------------------------------------------------
// Executable
/// What the hint collection reads.
pub struct HintCtx<'a> {
    pub source: &'a SourceText,
    pub index: &'a LineIndex,
    pub settings: &'a InlayHintsSettings,
    pub start: usize,
    pub end: usize,
    pub imports: &'a Vec<ResolvedImport>,
}

impl<'a> HintCtx<'a> {
    pub open spec fn env(&self) -> HintEnv {
        HintEnv {
            b: self.source.bytes(),
            file_id: self.source.file_id,
            settings: *self.settings,
            start: self.start as int,
            end: self.end as int,
            imports: imports_view(self.imports@),
        }
    }

    pub open spec fn wf(&self) -> bool {
        &&& self.index.indexes(self.source.bytes())
        &&& self.source.bytes().len() < usize::MAX
    }
}

fn push_hint(ctx: &HintCtx, out: &mut Vec<InlayHint>, anchor: SourceSpan, label: Vec<u8>, kind: InlayHintKind)
    requires
        ctx.wf(),
        valid_utf8(label@),
    ensures
        hint_views(final(out)@) == hint_views(old(out)@) + hint_at(ctx.env(), anchor, label@, kind),
{
    let ghost before = out@;
    if anchor.end < ctx.start || anchor.end > ctx.end {
        proof {
            assert(hint_views(final(out)@) =~= hint_views(before) + hint_at(ctx.env(), anchor, label@, kind));
        }
        return;
    }
    let text = ctx.source.as_str();
    match ctx.index.offset_to_position(text, anchor.end) {
        Ok(position) => {
            let ghost lv = label@;
            out.push(InlayHint { position, label: bytes_to_string(label), kind });
            proof {
                assert(hint_views(final(out)@) =~= hint_views(before) + hint_at(ctx.env(), anchor, lv, kind));
            }
        },
        Err(_) => {
            proof {
                assert(hint_views(final(out)@) =~= hint_views(before) + hint_at(ctx.env(), anchor, label@, kind));
            }
        },
    }
}

fn empty_label() -> (out: Vec<u8>)
    ensures
        out@.len() == 0,
        valid_utf8(out@),
{
    let out: Vec<u8> = Vec::new();
    proof {
        crate::text::lemma_ascii_valid(out@);
    }
    out
}

fn lookup_exec<'a>(imports: &'a Vec<ResolvedImport>, target: &str) -> (r: Option<&'a String>)
    ensures
        match lookup(imports_view(imports@), utf8(target@), 0) {
            Some(u) => r matches Some(x) && utf8(x@) == u,
            None => r is None,
        },
{
    let ghost iv = imports_view(imports@);
    let n = imports.len();
    let mut i: usize = 0;
    while i < n
        invariant
            i <= n,
            n == imports@.len(),
            iv == imports_view(imports@),
            lookup(iv, utf8(target@), i as int) == lookup(iv, utf8(target@), 0),
        decreases n - i,
    {
        proof {
            assert(iv[i as int] == (utf8(imports@[i as int].target@), utf8(imports@[i as int].uri@)));
            if utf8(imports@[i as int].target@) == utf8(target@) {
                crate::text::lemma_utf8_injective(imports@[i as int].target@, target@);
            }
        }
        if str_eq(imports[i].target.as_str(), target) {
            return Some(&imports[i].uri);
        }
        i = i + 1;
    }
    None
}

fn name_is(name: &str, word: &str) -> (r: bool)
    ensures
        r == (utf8(name@) == lit(word)),
{
    proof {
        if utf8(name@) == utf8(word@) {
            crate::text::lemma_utf8_injective(name@, word@);
        }
    }
    str_eq(name, word)
}

fn push_profile_hint(ctx: &HintCtx, d: &crate::ast::Directive, out: &mut Vec<InlayHint>)
    requires
        ctx.wf(),
    ensures
        hint_views(final(out)@) == hint_views(old(out)@) + profile_hints(ctx.env(), utf8(d.name@), d.span),
{
    let ghost before = hint_views(out@);
    let name = d.name.as_str();
    if ctx.settings.profile_effects && name_is(name, "@profile") {
        match dir_value_span_exec(ctx.source, name, d.span) {
            None => {},
            Some(vs) => match ctx.source.slice(vs) {
                None => {},
                Some(v) => {
                    let vb = v.as_bytes();
                    proof {
                        crate::text::lemma_str_valid(v@);
                    }
                    let (s, e) = crate::formatting::trimmed_piece(vb, 0, vb.len());
                    if s != e {
                        let mut label = empty_label();
                        push_lit(&mut label, "activates `");
                        crate::text::push_range(&mut label, vb, s, e);
                        proof {
                            crate::text::lemma_valid_subrange(vb@, s as int, e as int);
                        }
                        push_lit(&mut label, "` profile");
                        push_hint(ctx, out, vs, label, InlayHintKind::Parameter);
                        return;
                    }
                },
            },
        }
    }
    proof {
        assert(hint_views(out@) =~= before + profile_hints(ctx.env(), utf8(d.name@), d.span));
    }
}

fn push_import_hint(ctx: &HintCtx, d: &crate::ast::Directive, out: &mut Vec<InlayHint>)
    requires
        ctx.wf(),
    ensures
        hint_views(final(out)@) == hint_views(old(out)@) + import_hints(
            ctx.env(),
            utf8(d.name@),
            d.span,
            crate::ast::opt_text(d.value),
        ),
{
    let ghost before = hint_views(out@);
    let name = d.name.as_str();
    if ctx.settings.import_resolution && (name_is(name, "@import") || name_is(name, "@include")) {
        match &d.value {
            None => {},
            Some(v) => {
                let target = target_exec(v.as_str());
                match lookup_exec(ctx.imports, target.as_str()) {
                    None => {},
                    Some(uri) => {
                        let anchor = match dir_target_span_exec(ctx.source, name, d.span) {
                            Some(s) => s,
                            None => d.span,
                        };
                        let mut label = empty_label();
                        push_lit(&mut label, "→ ");
                        push_text(&mut label, uri.as_str());
                        push_hint(ctx, out, anchor, label, InlayHintKind::Parameter);
                        return;
                    },
                }
            },
        }
    }
    proof {
        assert(hint_views(out@) =~= before + import_hints(
            ctx.env(),
            utf8(d.name@),
            d.span,
            crate::ast::opt_text(d.value),
        ));
    }
}

fn push_let_hint(ctx: &HintCtx, binding: &crate::ast::LetBinding, out: &mut Vec<InlayHint>)
    requires
        ctx.wf(),
    ensures
        hint_views(final(out)@) == hint_views(old(out)@) + let_hints(
            ctx.env(),
            utf8(binding.name@),
            binding.span,
            binding.value_span,
        ),
{
    let ghost before = hint_views(out@);
    if !ctx.settings.let_bindings {
        proof {
            assert(hint_views(out@) =~= before);
        }
        return;
    }
    let ns = match let_name_span_exec(ctx.source, binding.name.as_str(), binding.span) {
        Some(s) => s,
        None => {
            proof {
                assert(hint_views(out@) =~= before);
            }
            return;
        },
    };
    let val = match binding.value_span {
        Some(vs) => trimmed_value_exec(ctx.source, vs),
        None => None,
    };
    let mut label = empty_label();
    match val {
        Some(v) => {
            push_lit(&mut label, "= ");
            let ghost l0 = label@;
            let n = v.len();
            crate::text::push_range(&mut label, v.as_slice(), 0, n);
            proof {
                assert(v@.subrange(0, n as int) =~= v@);
            }
            push_lit(&mut label, " : ");
            let text = bytes_to_string(v);
            let ty = infer_inline_value_type(text.as_str());
            push_text(&mut label, ty);
        },
        None => {
            push_lit(&mut label, ": ");
            push_lit(&mut label, "unknown");
        },
    }
    push_hint(ctx, out, ns, label, InlayHintKind::Type);
}

fn push_leaf_hint(ctx: &HintCtx, value: &Option<Box<Node>>, out: &mut Vec<InlayHint>)
    requires
        ctx.wf(),
    ensures
        hint_views(final(out)@) == hint_views(old(out)@) + leaf_hints(ctx.env(), crate::ast::opt_leaf(*value)),
{
    let ghost before = hint_views(out@);
    match value {
        Some(node) => match &**node {
            Node::Scalar(scalar) => {
                if ctx.settings.inferred_types {
                    let mut label = empty_label();
                    push_lit(&mut label, ": ");
                    let ty = scalar_hint_type_exec(scalar.kind, scalar.text.as_str());
                    push_text(&mut label, ty);
                    push_hint(ctx, out, scalar.span, label, InlayHintKind::Type);
                    return;
                }
            },
            _ => {},
        },
        None => {},
    }
    proof {
        assert(hint_views(out@) =~= before + leaf_hints(ctx.env(), crate::ast::opt_leaf(*value)));
    }
}

fn push_node_hints(ctx: &HintCtx, node: &Node, out: &mut Vec<InlayHint>)
    requires
        ctx.wf(),
        node.nested_leaves(),
    ensures
        hint_views(final(out)@) == hint_views(old(out)@) + node_hints(ctx.env(), node.view_node()),
{
    let ghost before = hint_views(out@);
    let ghost env = ctx.env();
    match node {
        Node::Mapping(mapping) => {
            let ghost ev = mapping.entries@.map_values(|e: MappingEntry| e.view_entry());
            let n = mapping.entries.len();
            let mut i: usize = 0;
            while i < n
                invariant
                    i <= n,
                    n == mapping.entries@.len(),
                    ev == mapping.entries@.map_values(|e: MappingEntry| e.view_entry()),
                    ctx.wf(),
                    env == ctx.env(),
                    hint_views(out@) == before + entry_hints(env, ev, i as int),
                decreases n - i,
            {
                let entry = &mapping.entries[i];
                proof {
                    assert(ev[i as int] == entry.view_entry());
                }
                let ghost mid = hint_views(out@);
                if ctx.settings.key_paths {
                    let path = match key_path(ctx.source, entry.key_span.start) {
                        Some(p) => p,
                        None => entry.key.clone(),
                    };
                    let mut label = empty_label();
                    push_text(&mut label, path.as_str());
                    push_hint(ctx, out, entry.key_span, label, InlayHintKind::Parameter);
                }
                push_leaf_hint(ctx, &entry.value, out);
                proof {
                    assert(hint_views(out@) =~= before + entry_hints(env, ev, i + 1));
                }
                i = i + 1;
            }
            proof {
                assert(hint_views(out@) =~= before + node_hints(env, node.view_node()));
            }
        },
        Node::Sequence(sequence) => {
            let ghost iv = sequence.items@.map_values(|x: SequenceItem| x.view_item());
            let n = sequence.items.len();
            let mut i: usize = 0;
            while i < n
                invariant
                    i <= n,
                    n == sequence.items@.len(),
                    iv == sequence.items@.map_values(|x: SequenceItem| x.view_item()),
                    ctx.wf(),
                    env == ctx.env(),
                    hint_views(out@) == before + item_list_hints(env, iv, i as int),
                decreases n - i,
            {
                proof {
                    assert(iv[i as int] == sequence.items@[i as int].view_item());
                }
                push_leaf_hint(ctx, &sequence.items[i].value, out);
                proof {
                    assert(hint_views(out@) =~= before + item_list_hints(env, iv, i + 1));
                }
                i = i + 1;
            }
            proof {
                assert(hint_views(out@) =~= before + node_hints(env, node.view_node()));
            }
        },
        Node::Scalar(scalar) => {
            if ctx.settings.inferred_types {
                let mut label = empty_label();
                push_lit(&mut label, ": ");
                let ty = scalar_hint_type_exec(scalar.kind, scalar.text.as_str());
                push_text(&mut label, ty);
                push_hint(ctx, out, scalar.span, label, InlayHintKind::Type);
            } else {
                proof {
                    assert(hint_views(out@) =~= before + node_hints(env, node.view_node()));
                }
            }
        },
        Node::Tag(tag) => {
            push_leaf_hint(ctx, &tag.value, out);
        },
        _ => {
            proof {
                assert(hint_views(out@) =~= before + node_hints(env, node.view_node()));
            }
        },
    }
}

fn push_file_hints(ctx: &HintCtx, documents: &Vec<Document>, out: &mut Vec<InlayHint>)
    requires
        ctx.wf(),
        forall|i: int| 0 <= i < documents@.len() ==> (#[trigger] documents@[i]).nodes_nested_leaves(),
    ensures
        hint_views(final(out)@) == hint_views(old(out)@) + docs_hints(
            ctx.env(),
            documents@.map_values(|d: Document| d.view_doc()),
            documents@.len() as int,
        ),
{
    let ghost before = hint_views(out@);
    let ghost env = ctx.env();
    let ghost dv = documents@.map_values(|d: Document| d.view_doc());
    let n = documents.len();
    let mut k: usize = 0;
    while k < n
        invariant
            k <= n,
            n == documents@.len(),
            dv == documents@.map_values(|d: Document| d.view_doc()),
            ctx.wf(),
            env == ctx.env(),
            forall|i: int| 0 <= i < documents@.len() ==> (#[trigger] documents@[i]).nodes_nested_leaves(),
            hint_views(out@) == before + docs_hints(env, dv, k as int),
        decreases n - k,
    {
        let d = &documents[k];
        assert(documents@[k as int].nodes_nested_leaves());
        let ghost items = d.view_doc().items;
        proof {
            assert(dv[k as int] == d.view_doc());
        }
        let ghost base = hint_views(out@);
        let m = d.items.len();
        let mut i: usize = 0;
        while i < m
            invariant
                i <= m,
                m == d.items@.len(),
                items == d.view_doc().items,
                d.nodes_nested_leaves(),
                ctx.wf(),
                env == ctx.env(),
                hint_views(out@) == base + items_hints(env, items, i as int),
            decreases m - i,
        {
            let item = &d.items[i];
            proof {
                assert(items[i as int] == item.view_item());
            }
            let ghost mid = hint_views(out@);
            match item {
                DocumentItem::Directive(directive) => {
                    push_profile_hint(ctx, directive, out);
                    push_import_hint(ctx, directive, out);
                },
                DocumentItem::Let(binding) => push_let_hint(ctx, binding, out),
                DocumentItem::Node(node) => {
                    assert(d.items@[i as int] matches DocumentItem::Node(x) ==> x.nested_leaves());
                    push_node_hints(ctx, node, out);
                },
                DocumentItem::Comment(_) => {},
            }
            proof {
                assert(hint_views(out@) =~= base + items_hints(env, items, i + 1));
            }
            i = i + 1;
        }
        proof {
            assert(hint_views(out@) =~= before + docs_hints(env, dv, k + 1));
        }
        k = k + 1;
    }
}

fn hint_before_exec(a: &InlayHint, b: &InlayHint) -> (r: bool)
    ensures
        r == hint_before(hint_view(*a), hint_view(*b)),
{
    a.position.line < b.position.line || (a.position.line == b.position.line && a.position.character
        < b.position.character) || (a.position.line == b.position.line && a.position.character
        == b.position.character && bytes_lt_exec(a.label.as_str().as_bytes(), b.label.as_str().as_bytes()))
}

fn sort_hints(found: Vec<InlayHint>) -> (sorted: Vec<InlayHint>)
    ensures
        hint_views(sorted@) == sorted_hints(hint_views(found@)),
{
    let mut rest = found;
    let ghost input = hint_views(rest@);
    let mut sorted: Vec<InlayHint> = Vec::new();
    let mut done: usize = 0;
    let total = rest.len();
    while rest.len() > 0
        invariant
            done + rest@.len() == total,
            total == input.len(),
            hint_views(rest@) =~= input.subrange(done as int, total as int),
            hint_views(sorted@) =~= sorted_hints(input.subrange(0, done as int)),
        decreases rest@.len(),
    {
        let ghost rest_before = rest@;
        let x = rest.remove(0);
        let ghost xv = hint_view(x);
        let ghost prev = hint_views(sorted@);
        proof {
            assert(hint_views(rest@) =~= hint_views(rest_before).subrange(1, rest_before.len() as int));
        }
        let mut p: usize = 0;
        while p < sorted.len() && !hint_before_exec(&x, &sorted[p])
            invariant
                p <= sorted@.len(),
                prev == hint_views(sorted@),
                xv == hint_view(x),
                hint_pos(prev, xv, p as int) == hint_pos(prev, xv, 0),
            decreases sorted@.len() - p,
        {
            p = p + 1;
        }
        sorted.insert(p, x);
        proof {
            assert(input.subrange(done as int, total as int)[0] == xv);
            assert(input.subrange(0, done + 1).drop_last() =~= input.subrange(0, done as int));
            assert(input.subrange(0, done + 1).last() == xv);
            assert(hint_views(sorted@) =~= prev.insert(p as int, xv));
            assert(hint_views(rest@) =~= input.subrange(done + 1, total as int));
        }
        done = done + 1;
    }
    proof {
        assert(input.subrange(0, total as int) =~= input);
    }
    sorted
}

/// The hints for the range shown, ordered by position then label: what profiles
/// directives activate, where imports resolved (from `imports`), binding values and
/// types, key paths and scalar types, as the settings ask. None when hints are off or the
/// range is not in the text.
pub fn collect(request: InlayHintsRequest) -> (r: Option<Vec<InlayHint>>)
    requires
        lexes(crlf_to_lf(utf8(request.text@), 0)),
        crlf_to_lf(utf8(request.text@), 0).len() <= isize::MAX,
        line_slice_ok(crlf_to_lf(utf8(request.text@), 0), request.range.start.line as int),
        line_slice_ok(crlf_to_lf(utf8(request.text@), 0), request.range.end.line as int),
    ensures
        match hints_spec(
            utf8(request.text@),
            request.file_id,
            *request.settings,
            request.range,
            imports_view(request.imports@),
        ) {
            Some(h) => r matches Some(v) && hint_views(v@) == h,
            None => r is None,
        },
{
    if !request.settings.enabled {
        return None;
    }
    let parsed = parse_fallback(request.file_id, request.uri, request.text);
    let file = match &parsed.file {
        ParsedFile::Fallback(f) => &f.ast,
    };
    let source = &parsed.source;
    let text = source.as_str();
    let index = LineIndex::new(text);
    let start = match index.position_to_offset(text, request.range.start) {
        Ok(o) => o,
        Err(_) => {
            return None;
        },
    };
    let end = match index.position_to_offset(text, request.range.end) {
        Ok(o) => o,
        Err(_) => {
            return None;
        },
    };
    let ctx = HintCtx { source, index: &index, settings: request.settings, start, end, imports: request.imports };
    let mut hints: Vec<InlayHint> = Vec::new();
    push_file_hints(&ctx, &file.documents, &mut hints);
    Some(sort_hints(hints))
}

/// The targets of the `@import` and `@include` directives of a text, in order; the
/// server resolves them before asking for hints.
pub open spec fn targets_of_items(items: Seq<DocItemV>, k: int) -> Seq<Seq<u8>>
    decreases k,
{
    if k <= 0 {
        seq![]
    } else {
        targets_of_items(items, k - 1) + match items[k - 1] {
            DocItemV::Directive { name, value: Some(v), .. } => if name == lit("@import") || name == lit(
                "@include",
            ) {
                seq![target_of(v)]
            } else {
                seq![]
            },
            _ => seq![],
        }
    }
}

pub open spec fn targets_of_docs(docs: Seq<DocV>, k: int) -> Seq<Seq<u8>>
    decreases k,
{
    if k <= 0 {
        seq![]
    } else {
        targets_of_docs(docs, k - 1) + targets_of_items(docs[k - 1].items, docs[k - 1].items.len() as int)
    }
}

pub open spec fn strings_view(v: Seq<String>) -> Seq<Seq<u8>> {
    v.map_values(|s: String| utf8(s@))
}

pub fn import_hint_targets(documents: &Vec<Document>) -> (r: Vec<String>)
    ensures
        strings_view(r@) == targets_of_docs(
            documents@.map_values(|d: Document| d.view_doc()),
            documents@.len() as int,
        ),
{
    let ghost dv = documents@.map_values(|d: Document| d.view_doc());
    let mut out: Vec<String> = Vec::new();
    let n = documents.len();
    let mut k: usize = 0;
    while k < n
        invariant
            k <= n,
            n == documents@.len(),
            dv == documents@.map_values(|d: Document| d.view_doc()),
            strings_view(out@) == targets_of_docs(dv, k as int),
        decreases n - k,
    {
        let d = &documents[k];
        let ghost items = d.view_doc().items;
        proof {
            assert(dv[k as int] == d.view_doc());
        }
        let ghost base = strings_view(out@);
        let m = d.items.len();
        let mut i: usize = 0;
        while i < m
            invariant
                i <= m,
                m == d.items@.len(),
                items == d.view_doc().items,
                strings_view(out@) == base + targets_of_items(items, i as int),
            decreases m - i,
        {
            proof {
                assert(items[i as int] == d.items@[i as int].view_item());
            }
            let ghost before = out@;
            if let DocumentItem::Directive(directive) = &d.items[i] {
                if let Some(v) = &directive.value {
                    if name_is(directive.name.as_str(), "@import") || name_is(directive.name.as_str(), "@include") {
                        let t = target_exec(v.as_str());
                        out.push(t);
                        proof {
                            assert(strings_view(out@) =~= strings_view(before).push(utf8(t@)));
                        }
                    }
                }
            }
            proof {
                assert(strings_view(out@) =~= base + targets_of_items(items, i + 1));
            }
            i = i + 1;
        }
        proof {
            assert(strings_view(out@) =~= targets_of_docs(dv, k + 1));
        }
        k = k + 1;
    }
    out
}

} // verus!
