//! Hovers on nodes: keys, scalars and tags.
use vstd::prelude::*;
use vstd::utf8::valid_utf8;

use crate::ast::{EntryV, ItemV, LeafV, MappingEntry, Node, NodeV, Scalar, ScalarKind, SequenceItem};
use crate::hover::key_path::{key_path, key_path_spec};
use crate::hover::lookup::{def_views, ref_hover, value_reference_hover, HoverV};
use crate::hover::markdown::{escape_ticks, lit, push_escaped, push_lit, scalar_type, scalar_type_exec};
use crate::navigation::contains;
use crate::symbols::{path_text, Definition, PathSegment, SegV, SymbolPath};
use crate::syntax::{FileId, SourceSpan, SourceText};
use crate::text::{push_text, utf8};

verus! {

broadcast use vstd::utf8::valid_utf8_concat;

/// What a hover looks things up in: the text, its file and the document's definitions.
pub struct HoverEnv {
    pub norm: Seq<u8>,
    pub file_id: FileId,
    pub defs: Seq<crate::symbols::DefV>,
}

pub open spec fn env_of(source: &SourceText, defs: Seq<Definition>) -> HoverEnv {
    HoverEnv { norm: source.bytes(), file_id: source.file_id, defs: def_views(defs) }
}

/// "**Scalar:** ..." with the scalar's static type and its text.
pub open spec fn scalar_md(kind: ScalarKind, text: Seq<u8>) -> Seq<u8> {
    let ty = scalar_type(kind, text);
    lit("**Scalar:** `") + ty + lit("`\n\nLiteral: `") + escape_ticks(text) + lit("`\nStatic node type: `") + ty
        + lit(
        "`\n\nSpec excerpt: Plain scalars stay static in parse-only mode; hover never evaluates Lua to refine runtime values.",
    )
}

/// A scalar under the offset: in a `${...}` expression, the alias or binding named under
/// it, if any; else the scalar itself.
pub open spec fn scalar_hover(env: HoverEnv, kind: ScalarKind, span: SourceSpan, text: Seq<u8>, offset: int) -> Option<
    HoverV,
> {
    if !contains(span, offset) {
        None
    } else if kind == ScalarKind::LuaExpression && ref_hover(env.norm, env.file_id, env.defs, span, offset) is Some {
        ref_hover(env.norm, env.file_id, env.defs, span, offset)
    } else {
        Some((span, scalar_md(kind, text)))
    }
}

pub open spec fn leaf_hover(env: HoverEnv, l: Option<LeafV>, offset: int) -> Option<HoverV> {
    match l {
        Some(LeafV::Scalar { kind, span, text }) => scalar_hover(env, kind, span, text, offset),
        _ => None,
    }
}

/// The static type of the value that a key holds.
pub open spec fn leaf_type(l: Option<LeafV>) -> Seq<u8> {
    match l {
        None => lit("null"),
        Some(LeafV::Scalar { kind, text, .. }) => scalar_type(kind, text),
        Some(LeafV::Error { .. }) => lit("error"),
        Some(LeafV::Nested { .. }) => lit("nested"),
    }
}

/// "**Key:** ..." with the key's dotted path and the type of its value.
pub open spec fn key_md(key: Seq<u8>, path: Seq<u8>, ty: Seq<u8>) -> Seq<u8> {
    lit("**Key:** `") + key + lit("`\n\nPath: `") + path + lit("`\nStatic value type: `") + ty + lit(
        "`\n\nSpec excerpt: Mapping keys select child nodes using `key: value` syntax and indentation-delimited blocks.",
    )
}

/// The key's path as the text's indentation gives it, else the symbol path under `path`.
pub open spec fn entry_path(env: HoverEnv, e: EntryV, path: Seq<SegV>) -> Seq<u8> {
    match key_path_spec(env.norm, e.key_span.start as int) {
        Some(p) => p,
        None => path_text(path.push(SegV::Key(e.key)), path.len() + 1 as int),
    }
}

pub open spec fn entries_hover(env: HoverEnv, es: Seq<EntryV>, path: Seq<SegV>, offset: int, i: int) -> Option<
    HoverV,
>
    decreases es.len() - i,
{
    if i < 0 || i >= es.len() {
        None
    } else if contains(es[i].key_span, offset) {
        Some((es[i].key_span, key_md(es[i].key, entry_path(env, es[i], path), leaf_type(es[i].value))))
    } else {
        match leaf_hover(env, es[i].value, offset) {
            Some(h) => Some(h),
            None => entries_hover(env, es, path, offset, i + 1),
        }
    }
}

pub open spec fn items_hover(env: HoverEnv, items: Seq<ItemV>, offset: int, i: int) -> Option<HoverV>
    decreases items.len() - i,
{
    if i < 0 || i >= items.len() {
        None
    } else {
        match leaf_hover(env, items[i].value, offset) {
            Some(h) => Some(h),
            None => items_hover(env, items, offset, i + 1),
        }
    }
}

/// "**Tag:** ..."
pub open spec fn tag_md(name: Seq<u8>) -> Seq<u8> {
    lit("**Tag:** `!") + name + lit(
        "`\n\nApplies a tagged interpretation to the following static node.\n\n**Static node type:** `tag`",
    )
}

/// The hover of a node at `path`: the first key, scalar or tag under the offset.
pub open spec fn node_hover_spec(env: HoverEnv, n: NodeV, path: Seq<SegV>, offset: int) -> Option<HoverV> {
    match n {
        NodeV::Mapping { entries, .. } => entries_hover(env, entries, path, offset, 0),
        NodeV::Sequence { items, .. } => items_hover(env, items, offset, 0),
        NodeV::Leaf(l) => leaf_hover(env, Some(l), offset),
        NodeV::Tag { name, span, value } => if contains(span, offset) {
            Some((span, tag_md(name)))
        } else {
            leaf_hover(env, value, offset)
        },
        _ => None,
    }
}

pub open spec fn hover_out(r: Option<(SourceSpan, Vec<u8>)>, h: Option<HoverV>) -> bool {
    match h {
        None => r is None,
        Some((s, md)) => r matches Some((rs, rmd)) && rs == s && rmd@ == md && valid_utf8(md),
    }
}

fn empty_text() -> (out: Vec<u8>)
    ensures
        out@.len() == 0,
        valid_utf8(out@),
{
    let out: Vec<u8> = Vec::new();
    proof {
        crate::text::lemma_ascii_valid(out@);
    }
    out
}

fn scalar_markdown(scalar: &Scalar) -> (md: Vec<u8>)
    ensures
        md@ == scalar_md(scalar.kind, utf8(scalar.text@)),
        valid_utf8(md@),
{
    let ty = scalar_type_exec(scalar.kind, scalar.text.as_str());
    let mut out = empty_text();
    push_lit(&mut out, "**Scalar:** `");
    push_text(&mut out, ty);
    push_lit(&mut out, "`\n\nLiteral: `");
    push_escaped(&mut out, scalar.text.as_str());
    push_lit(&mut out, "`\nStatic node type: `");
    push_text(&mut out, ty);
    push_lit(
        &mut out,
        "`\n\nSpec excerpt: Plain scalars stay static in parse-only mode; hover never evaluates Lua to refine runtime values.",
    );
    out
}

/// The hover of a scalar under the offset.
pub fn scalar_hover_exec(scalar: &Scalar, offset: usize, source: &SourceText, defs: &Vec<Definition>) -> (r: Option<
    (SourceSpan, Vec<u8>),
>)
    ensures
        hover_out(r, scalar_hover(env_of(source, defs@), scalar.kind, scalar.span, utf8(scalar.text@), offset as int)),
{
    if !(scalar.span.start <= offset && offset < scalar.span.end) {
        return None;
    }
    if scalar.kind == ScalarKind::LuaExpression {
        match value_reference_hover(scalar.span, offset, source, defs) {
            Some(h) => {
                return Some(h);
            },
            None => {},
        }
    }
    let md = scalar_markdown(scalar);
    Some((scalar.span, md))
}

fn leaf_hover_exec(value: &Option<Box<Node>>, offset: usize, source: &SourceText, defs: &Vec<Definition>) -> (r: Option<
    (SourceSpan, Vec<u8>),
>)
    ensures
        hover_out(r, leaf_hover(env_of(source, defs@), crate::ast::opt_leaf(*value), offset as int)),
{
    match value {
        Some(node) => match &**node {
            Node::Scalar(scalar) => scalar_hover_exec(scalar, offset, source, defs),
            _ => None,
        },
        None => None,
    }
}

fn leaf_type_exec(value: &Option<Box<Node>>) -> (ty: &'static str)
    requires
        crate::ast::opt_is_leaf(*value),
    ensures
        utf8(ty@) == leaf_type(crate::ast::opt_leaf(*value)),
{
    match value {
        Some(node) => match &**node {
            Node::Scalar(scalar) => scalar_type_exec(scalar.kind, scalar.text.as_str()),
            _ => "error",
        },
        None => "null",
    }
}

fn key_markdown(entry: &MappingEntry, path: &str) -> (md: Vec<u8>)
    requires
        crate::ast::opt_is_leaf(entry.value),
    ensures
        md@ == key_md(utf8(entry.key@), utf8(path@), leaf_type(entry.view_entry().value)),
        valid_utf8(md@),
{
    let ty = leaf_type_exec(&entry.value);
    let mut out = empty_text();
    push_lit(&mut out, "**Key:** `");
    push_text(&mut out, entry.key.as_str());
    push_lit(&mut out, "`\n\nPath: `");
    push_text(&mut out, path);
    push_lit(&mut out, "`\nStatic value type: `");
    push_text(&mut out, ty);
    push_lit(
        &mut out,
        "`\n\nSpec excerpt: Mapping keys select child nodes using `key: value` syntax and indentation-delimited blocks.",
    );
    out
}

fn key_hover(entry: &MappingEntry, path: &SymbolPath, source: &SourceText) -> (md: Vec<u8>)
    requires
        crate::ast::opt_is_leaf(entry.value),
        source.bytes().len() < usize::MAX,
    ensures
        md@ == key_md(
            utf8(entry.key@),
            entry_path(env_of(source, seq![]), entry.view_entry(), path.view_path()),
            leaf_type(entry.view_entry().value),
        ),
        valid_utf8(md@),
{
    let text = match key_path(source, entry.key_span.start) {
        Some(p) => p,
        None => {
            let child = path.child(PathSegment::Key(entry.key.clone()));
            proof {
                assert(PathSegment::Key(entry.key).view_seg() == SegV::Key(utf8(entry.key@)));
            }
            child.to_text()
        },
    };
    key_markdown(entry, text.as_str())
}

fn tag_markdown(name: &str) -> (md: Vec<u8>)
    ensures
        md@ == tag_md(utf8(name@)),
        valid_utf8(md@),
{
    let mut out = empty_text();
    push_lit(&mut out, "**Tag:** `!");
    push_text(&mut out, name);
    push_lit(
        &mut out,
        "`\n\nApplies a tagged interpretation to the following static node.\n\n**Static node type:** `tag`",
    );
    out
}

/// The hover of a node: the first key, scalar or tag under the offset, keys with their
/// dotted paths below `path`.
pub fn node_hover(node: &Node, path: &SymbolPath, offset: usize, source: &SourceText, defs: &Vec<Definition>) -> (r: Option<
    (SourceSpan, Vec<u8>),
>)
    requires
        node.nested_leaves(),
        source.bytes().len() < usize::MAX,
    ensures
        hover_out(r, node_hover_spec(env_of(source, defs@), node.view_node(), path.view_path(), offset as int)),
{
    let ghost env = env_of(source, defs@);
    match node {
        Node::Mapping(mapping) => {
            let ghost ev = mapping.entries@.map_values(|e: MappingEntry| e.view_entry());
            let n = mapping.entries.len();
            let mut i: usize = 0;
            while i < n
                invariant
                    i <= n,
                    n == mapping.entries@.len(),
                    node.nested_leaves(),
                    *node == Node::Mapping(*mapping),
                    ev == mapping.entries@.map_values(|e: MappingEntry| e.view_entry()),
                    env == env_of(source, defs@),
                    source.bytes().len() < usize::MAX,
                    entries_hover(env, ev, path.view_path(), offset as int, i as int) == entries_hover(
                        env,
                        ev,
                        path.view_path(),
                        offset as int,
                        0,
                    ),
                decreases n - i,
            {
                let entry = &mapping.entries[i];
                assert(crate::ast::opt_is_leaf(mapping.entries@[i as int].value));
                proof {
                    assert(ev[i as int] == entry.view_entry());
                }
                if entry.key_span.start <= offset && offset < entry.key_span.end {
                    let md = key_hover(entry, path, source);
                    return Some((entry.key_span, md));
                }
                match leaf_hover_exec(&entry.value, offset, source, defs) {
                    Some(h) => {
                        return Some(h);
                    },
                    None => {},
                }
                i = i + 1;
            }
            None
        },
        Node::Sequence(sequence) => {
            let ghost iv = sequence.items@.map_values(|x: SequenceItem| x.view_item());
            let n = sequence.items.len();
            let mut i: usize = 0;
            while i < n
                invariant
                    i <= n,
                    n == sequence.items@.len(),
                    *node == Node::Sequence(*sequence),
                    iv == sequence.items@.map_values(|x: SequenceItem| x.view_item()),
                    env == env_of(source, defs@),
                    items_hover(env, iv, offset as int, i as int) == items_hover(env, iv, offset as int, 0),
                decreases n - i,
            {
                let item = &sequence.items[i];
                proof {
                    assert(iv[i as int] == item.view_item());
                }
                match leaf_hover_exec(&item.value, offset, source, defs) {
                    Some(h) => {
                        return Some(h);
                    },
                    None => {},
                }
                i = i + 1;
            }
            None
        },
        Node::Scalar(scalar) => scalar_hover_exec(scalar, offset, source, defs),
        Node::Tag(tag) => {
            if tag.span.start <= offset && offset < tag.span.end {
                let md = tag_markdown(tag.name.as_str());
                return Some((tag.span, md));
            }
            leaf_hover_exec(&tag.value, offset, source, defs)
        },
        _ => None,
    }
}


pub proof fn lemma_leaf_hover_contains(env: HoverEnv, l: Option<LeafV>, offset: int)
    ensures
        leaf_hover(env, l, offset) matches Some((s, _)) ==> s.start <= offset < s.end,
{
    if let Some(LeafV::Scalar { kind, span, text }) = l {
        crate::hover::lookup::lemma_ref_hover_contains(env.norm, env.file_id, env.defs, span, offset);
    }
}

pub proof fn lemma_entries_hover_contains(env: HoverEnv, es: Seq<EntryV>, path: Seq<SegV>, offset: int, i: int)
    ensures
        entries_hover(env, es, path, offset, i) matches Some((s, _)) ==> s.start <= offset < s.end,
    decreases es.len() - i,
{
    if 0 <= i < es.len() && !contains(es[i].key_span, offset) {
        lemma_leaf_hover_contains(env, es[i].value, offset);
        lemma_entries_hover_contains(env, es, path, offset, i + 1);
    }
}

pub proof fn lemma_items_hover_contains(env: HoverEnv, items: Seq<ItemV>, offset: int, i: int)
    ensures
        items_hover(env, items, offset, i) matches Some((s, _)) ==> s.start <= offset < s.end,
    decreases items.len() - i,
{
    if 0 <= i < items.len() {
        lemma_leaf_hover_contains(env, items[i].value, offset);
        lemma_items_hover_contains(env, items, offset, i + 1);
    }
}

/// A node's hover covers the offset.
pub proof fn lemma_node_hover_contains(env: HoverEnv, n: NodeV, path: Seq<SegV>, offset: int)
    ensures
        node_hover_spec(env, n, path, offset) matches Some((s, _)) ==> s.start <= offset < s.end,
{
    match n {
        NodeV::Mapping { entries, .. } => lemma_entries_hover_contains(env, entries, path, offset, 0),
        NodeV::Sequence { items, .. } => lemma_items_hover_contains(env, items, offset, 0),
        NodeV::Leaf(l) => lemma_leaf_hover_contains(env, Some(l), offset),
        NodeV::Tag { value, .. } => lemma_leaf_hover_contains(env, value, offset),
        _ => {},
    }
}

} // verus!
