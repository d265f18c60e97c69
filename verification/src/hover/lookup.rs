//! The identifier under the cursor and the alias or `let` binding that it names.
use vstd::prelude::*;
use vstd::utf8::valid_utf8;

use crate::code_actions::common::source_slice;
use crate::navigation::{contains, is_ident_byte, is_ident_byte_exec};
use crate::hover::markdown::{lit, push_lit};
use crate::symbols::{path_text, DefV, Definition, DefinitionKind};
use crate::syntax::{FileId, SourceSpan, SourceText};
use crate::text::{lemma_str_valid, push_text, str_eq, substring, utf8};

verus! {

broadcast use vstd::utf8::valid_utf8_concat;

/// A hover: the span it covers and its markdown.
pub type HoverV = (SourceSpan, Seq<u8>);

/// Where the run of identifier bytes that ends at `i` starts.
pub open spec fn ident_start(t: Seq<u8>, i: int) -> int
    decreases i,
{
    if i > 0 && i <= t.len() && is_ident_byte(t[i - 1]) {
        ident_start(t, i - 1)
    } else {
        i
    }
}

/// Where the run of identifier bytes that starts at `i` ends.
pub open spec fn ident_end(t: Seq<u8>, i: int) -> int
    decreases t.len() - i,
{
    if 0 <= i < t.len() && is_ident_byte(t[i]) {
        ident_end(t, i + 1)
    } else {
        i
    }
}

/// The identifier under `offset` inside a span of the source, with its own span.
pub open spec fn ident_at(norm: Seq<u8>, file_id: FileId, span: SourceSpan, offset: int) -> Option<
    (SourceSpan, Seq<u8>),
> {
    match source_slice(norm, file_id, span) {
        None => None,
        Some(t) => {
            let rel = offset - span.start;
            if rel < 0 || rel >= t.len() || !is_ident_byte(t[rel]) {
                None
            } else {
                let s = ident_start(t, rel);
                let e = ident_end(t, rel);
                Some(
                    (
                        SourceSpan {
                            file_id: span.file_id,
                            start: (span.start + s) as usize,
                            end: (span.start + e) as usize,
                        },
                        t.subrange(s, e),
                    ),
                )
            }
        },
    }
}

proof fn lemma_ident_start(t: Seq<u8>, i: int)
    requires
        0 <= i <= t.len(),
    ensures
        0 <= ident_start(t, i) <= i,
        forall|j: int| ident_start(t, i) <= j < i ==> is_ident_byte(t[j]),
    decreases i,
{
    if i > 0 && is_ident_byte(t[i - 1]) {
        lemma_ident_start(t, i - 1);
    }
}

proof fn lemma_ident_end(t: Seq<u8>, i: int)
    requires
        0 <= i <= t.len(),
    ensures
        i <= ident_end(t, i) <= t.len(),
        forall|j: int| i <= j < ident_end(t, i) ==> is_ident_byte(t[j]),
    decreases t.len() - i,
{
    if i < t.len() && is_ident_byte(t[i]) {
        lemma_ident_end(t, i + 1);
    }
}

/// The identifier under `offset` inside `span`: letters, digits, `_` and `-`.
pub fn identifier_at_span(span: SourceSpan, offset: usize, source: &SourceText) -> (r: Option<
    (SourceSpan, String),
>)
    ensures
        match ident_at(source.bytes(), source.file_id, span, offset as int) {
            None => r is None,
            Some((s, id)) => r matches Some((rs, rid)) && rs == s && utf8(rid@) == id,
        },
{
    let text = match source.slice(span) {
        Some(t) => t,
        None => {
            return None;
        },
    };
    let t = text.as_bytes();
    proof {
        lemma_str_valid(text@);
    }
    if offset < span.start {
        return None;
    }
    let relative = offset - span.start;
    if relative >= t.len() || !is_ident_byte_exec(t[relative]) {
        return None;
    }
    let mut start = relative;
    while start > 0 && is_ident_byte_exec(t[start - 1])
        invariant
            start <= relative < t@.len(),
            ident_start(t@, start as int) == ident_start(t@, relative as int),
        decreases start,
    {
        start = start - 1;
    }
    let mut end = relative;
    while end < t.len() && is_ident_byte_exec(t[end])
        invariant
            relative <= end <= t@.len(),
            ident_end(t@, end as int) == ident_end(t@, relative as int),
        decreases t@.len() - end,
    {
        end = end + 1;
    }
    proof {
        lemma_ident_start(t@, relative as int);
        lemma_ident_end(t@, relative as int);
        assert(start as int == ident_start(t@, relative as int));
        assert(end as int == ident_end(t@, relative as int));
        assert(is_ident_byte(t@[start as int]));
        assert(is_ident_byte(t@[end - 1]));
        crate::text::lemma_boundary_after_ascii(t@, end - 1);
        assert(span.start + end <= span.end);
    }
    let ident = substring(t, start, end);
    Some((SourceSpan::new(span.file_id, span.start + start, span.start + end), ident))
}

// ---------------------------------------------------------------------------
// Definitions by name
/// The first definition of a kind with a name, from index `i` on.
pub open spec fn first_def(defs: Seq<DefV>, kind: DefinitionKind, name: Seq<u8>, i: int) -> Option<DefV>
    decreases defs.len() - i,
{
    if i < 0 || i >= defs.len() {
        None
    } else if defs[i].kind == kind && defs[i].name == name {
        Some(defs[i])
    } else {
        first_def(defs, kind, name, i + 1)
    }
}

pub open spec fn def_views(defs: Seq<Definition>) -> Seq<DefV> {
    crate::semantic::defs_view(defs)
}

fn first_def_exec(defs: &Vec<Definition>, kind: DefinitionKind, name: &str) -> (r: Option<usize>)
    ensures
        match first_def(def_views(defs@), kind, utf8(name@), 0) {
            None => r is None,
            Some(d) => r matches Some(i) && i < defs@.len() && defs@[i as int].view_def() == d,
        },
{
    let ghost dv = def_views(defs@);
    let n = defs.len();
    let mut i: usize = 0;
    while i < n
        invariant
            i <= n,
            n == defs@.len(),
            dv == def_views(defs@),
            first_def(dv, kind, utf8(name@), i as int) == first_def(dv, kind, utf8(name@), 0),
        decreases n - i,
    {
        proof {
            assert(dv[i as int] == defs@[i as int].view_def());
            if utf8(defs@[i as int].name@) == utf8(name@) {
                crate::text::lemma_utf8_injective(defs@[i as int].name@, name@);
            }
        }
        if defs[i].kind == kind && str_eq(defs[i].name.as_str(), name) {
            return Some(i);
        }
        i = i + 1;
    }
    None
}

/// "**Alias:** ..." for an alias definition.
pub open spec fn alias_md(d: DefV) -> Seq<u8> {
    lit("**Alias:** `") + d.name + lit("`\n\nImported/module alias.\nSource path: `") + match d.detail {
        Some(x) => x,
        None => lit("unknown"),
    } + lit("`\nPath: `") + path_text(d.path, d.path.len() as int) + lit(
        "`\n\nAvailable inside parse-only Lua expressions without evaluation.\n\n**Static node type:** `alias`",
    )
}

/// "**Let binding:** ..." for a `let` definition.
pub open spec fn binding_md(d: DefV) -> Seq<u8> {
    lit("**Let binding:** `") + d.name + lit("`\n\nResolved from the local semantic index.\nPath: `")
        + path_text(d.path, d.path.len() as int) + lit("`\n\n**Static node type:** `binding`")
}

/// The identifier under the offset, when an alias or else a `let` binding has its name.
pub open spec fn ref_hover(norm: Seq<u8>, file_id: FileId, defs: Seq<DefV>, span: SourceSpan, offset: int) -> Option<
    HoverV,
> {
    match ident_at(norm, file_id, span, offset) {
        None => None,
        Some((s, id)) => match first_def(defs, DefinitionKind::Alias, id, 0) {
            Some(d) => Some((s, alias_md(d))),
            None => match first_def(defs, DefinitionKind::Let, id, 0) {
                Some(d) => Some((s, binding_md(d))),
                None => None,
            },
        },
    }
}

pub(crate) fn alias_markdown(d: &Definition) -> (md: Vec<u8>)
    ensures
        md@ == alias_md(d.view_def()),
        valid_utf8(md@),
{
    let mut out: Vec<u8> = Vec::new();
    proof {
        crate::text::lemma_ascii_valid(out@);
    }
    push_lit(&mut out, "**Alias:** `");
    push_text(&mut out, d.name.as_str());
    push_lit(&mut out, "`\n\nImported/module alias.\nSource path: `");
    match &d.detail {
        Some(x) => push_text(&mut out, x.as_str()),
        None => push_lit(&mut out, "unknown"),
    }
    push_lit(&mut out, "`\nPath: `");
    let path = d.path.to_text();
    push_text(&mut out, path.as_str());
    push_lit(
        &mut out,
        "`\n\nAvailable inside parse-only Lua expressions without evaluation.\n\n**Static node type:** `alias`",
    );
    out
}

pub(crate) fn binding_markdown(d: &Definition) -> (md: Vec<u8>)
    ensures
        md@ == binding_md(d.view_def()),
        valid_utf8(md@),
{
    let mut out: Vec<u8> = Vec::new();
    proof {
        crate::text::lemma_ascii_valid(out@);
    }
    push_lit(&mut out, "**Let binding:** `");
    push_text(&mut out, d.name.as_str());
    push_lit(&mut out, "`\n\nResolved from the local semantic index.\nPath: `");
    let path = d.path.to_text();
    push_text(&mut out, path.as_str());
    push_lit(&mut out, "`\n\n**Static node type:** `binding`");
    out
}

/// The hover of a reference to an alias or a `let` binding under the offset.
pub fn value_reference_hover(span: SourceSpan, offset: usize, source: &SourceText, defs: &Vec<Definition>) -> (r: Option<
    (SourceSpan, Vec<u8>),
>)
    ensures
        match ref_hover(source.bytes(), source.file_id, def_views(defs@), span, offset as int) {
            None => r is None,
            Some((s, md)) => r matches Some((rs, rmd)) && rs == s && rmd@ == md && valid_utf8(md),
        },
{
    let (s, ident) = match identifier_at_span(span, offset, source) {
        Some(x) => x,
        None => {
            return None;
        },
    };
    match first_def_exec(defs, DefinitionKind::Alias, ident.as_str()) {
        Some(i) => {
            let md = alias_markdown(&defs[i]);
            return Some((s, md));
        },
        None => {},
    }
    match first_def_exec(defs, DefinitionKind::Let, ident.as_str()) {
        Some(i) => {
            let md = binding_markdown(&defs[i]);
            Some((s, md))
        },
        None => None,
    }
}


/// The identifier found under an offset covers the offset.
pub proof fn lemma_ident_at_contains(norm: Seq<u8>, file_id: FileId, span: SourceSpan, offset: int)
    ensures
        ident_at(norm, file_id, span, offset) matches Some((s, _)) ==> s.start <= offset < s.end,
{
    match crate::code_actions::common::source_slice(norm, file_id, span) {
        None => {},
        Some(t) => {
            let rel = offset - span.start;
            if 0 <= rel < t.len() && is_ident_byte(t[rel]) {
                lemma_ident_start(t, rel);
                lemma_ident_end(t, rel + 1);
                assert(ident_end(t, rel) == ident_end(t, rel + 1));
            }
        },
    }
}

/// A reference hover covers the offset.
pub proof fn lemma_ref_hover_contains(norm: Seq<u8>, file_id: FileId, defs: Seq<DefV>, span: SourceSpan, offset: int)
    ensures
        ref_hover(norm, file_id, defs, span, offset) matches Some((s, _)) ==> s.start <= offset < s.end,
{
    lemma_ident_at_contains(norm, file_id, span, offset);
}

} // verus!
