//! Hovers on document items: directives, `let` bindings and nodes, in document order.
use vstd::prelude::*;
use vstd::utf8::valid_utf8;

use crate::ast::{DocItemV, DocV, Directive, Document, DocumentItem, LetBinding};
use crate::code_actions::common::source_slice;
use crate::formatting::trimmed_piece;
use crate::hover::lookup::{ref_hover, value_reference_hover, HoverV};
use crate::hover::markdown::{directive_markdown, directive_markdown_exec, lit, push_lit};
use crate::hover::nodes::{env_of, hover_out, node_hover, node_hover_spec, HoverEnv};
use crate::navigation::contains;
use crate::semantic::{as_word, trim_range, unquoted, unquoted_exec};
use crate::symbols::{Definition, SegV, SymbolPath};
use crate::syntax::{FileId, SourceSpan, SourceText};
use crate::text::{
    find_pat, find_pat_exec, lemma_boundary_after_ascii, lemma_find_pat_bounds, lemma_match_boundary,
    lemma_rfind_pat_bounds, lemma_skip_ws_back_bounds, lemma_skip_ws_bounds, lemma_skip_ws_boundary,
    lemma_str_valid, push_text, rfind_pat, rfind_pat_exec, skip_ws, skip_ws_back, str_eq, substring, trim_end_at,
    trim_start_at, utf8,
};

verus! {

broadcast use vstd::utf8::valid_utf8_concat;

// ---------------------------------------------------------------------------
// Directives
/// The alias after the last ` as ` of a directive's value, trimmed; none when blank.
pub open spec fn alias_of(v: Seq<u8>) -> Option<Seq<u8>> {
    match rfind_pat(v, 0, v.len() as int, as_word()) {
        None => None,
        Some(p) => {
            let (s, e) = trim_range(v, p + 4, v.len() as int);
            if s == e {
                None
            } else {
                Some(v.subrange(s, e))
            }
        },
    }
}

/// The target of a directive's value: the trimmed value up to its first ` as `, without
/// one pair of quotes around it.
pub open spec fn target_of(v: Seq<u8>) -> Seq<u8> {
    let (s, e) = trim_range(v, 0, v.len() as int);
    let hi = match find_pat(v, s, e, as_word()) {
        Some(q) => q,
        None => e,
    };
    let (qs, qe) = unquoted(v, s, hi);
    v.subrange(qs, qe)
}

/// "**Alias:** ..." for the alias that a directive binds.
pub open spec fn alias_directive_md(alias: Seq<u8>, name: Seq<u8>, target: Seq<u8>) -> Seq<u8> {
    lit("**Alias:** `") + alias + lit("`\n\nImported with `") + name + lit("`.\nTarget: `") + target + lit(
        "`\n\nAvailable inside parse-only Lua expressions as a static ",
    ) + (if name == lit("@use") {
        lit("module")
    } else {
        lit("import")
    }) + lit(" alias.\n\n**Static node type:** `alias`")
}

/// A directive under the offset: its name shows its documentation; the alias of an
/// `@import` or `@use` shows what it binds.
pub open spec fn directive_hover_spec(
    norm: Seq<u8>,
    file_id: FileId,
    name: Seq<u8>,
    span: SourceSpan,
    value: Option<Seq<u8>>,
    offset: int,
) -> Option<HoverV> {
    match source_slice(norm, file_id, span) {
        None => None,
        Some(t) => {
            let ts = skip_ws(t, 0, t.len() as int);
            let ns = SourceSpan {
                file_id: span.file_id,
                start: (span.start + ts) as usize,
                end: (span.start + ts + name.len()) as usize,
            };
            if span.start + ts + name.len() > usize::MAX {
                None
            } else if contains(ns, offset) {
                match directive_markdown(name) {
                    Some(md) => Some((ns, md)),
                    None => None,
                }
            } else if !(name == lit("@import") || name == lit("@use")) {
                None
            } else {
                match value {
                    None => None,
                    Some(v) => match alias_of(v) {
                        None => None,
                        Some(a) => match rfind_pat(t, 0, t.len() as int, a) {
                            None => None,
                            Some(ls) => {
                                let asp = SourceSpan {
                                    file_id: span.file_id,
                                    start: (span.start + ls) as usize,
                                    end: (span.start + ls + a.len()) as usize,
                                };
                                if !contains(asp, offset) {
                                    None
                                } else {
                                    match source_slice(norm, file_id, asp) {
                                        None => None,
                                        Some(at) => Some((asp, alias_directive_md(at, name, target_of(v)))),
                                    }
                                }
                            },
                        },
                    },
                }
            }
        },
    }
}

fn as_pattern() -> (pat: [u8; 4])
    ensures
        pat@ == as_word(),
{
    let pat: [u8; 4] = [0x20, 0x61, 0x73, 0x20];
    proof {
        assert(pat@ =~= as_word());
    }
    pat
}

fn alias_exec(v: &str) -> (r: Option<String>)
    ensures
        match alias_of(utf8(v@)) {
            None => r is None,
            Some(a) => r matches Some(x) && utf8(x@) == a,
        },
{
    let b = v.as_bytes();
    proof {
        lemma_str_valid(v@);
    }
    let n = b.len();
    let pat = as_pattern();
    match rfind_pat_exec(b, 0, n, pat.as_slice()) {
        None => None,
        Some(p) => {
            proof {
                lemma_rfind_pat_bounds(b@, 0, n as int, as_word());
                assert(b@[p + 3] == as_word()[3]);
                lemma_boundary_after_ascii(b@, p + 3);
            }
            let (s, e) = trimmed_piece(b, p + 4, n);
            if s == e {
                None
            } else {
                Some(substring(b, s, e))
            }
        },
    }
}

pub(crate) fn target_exec(v: &str) -> (r: String)
    ensures
        utf8(r@) == target_of(utf8(v@)),
{
    let b = v.as_bytes();
    proof {
        lemma_str_valid(v@);
    }
    let n = b.len();
    let (s, e) = trimmed_piece(b, 0, n);
    let pat = as_pattern();
    let hi = match find_pat_exec(b, s, e, pat.as_slice()) {
        Some(q) => {
            proof {
                lemma_find_pat_bounds(b@, s as int, e as int, as_word());
                lemma_match_boundary(b@, q as int, e as int, as_word());
            }
            q
        },
        None => e,
    };
    let (qs, qe) = unquoted_exec(b, s, hi);
    substring(b, qs, qe)
}

fn alias_directive_markdown(alias: &str, name: &str, target: &str) -> (md: Vec<u8>)
    ensures
        md@ == alias_directive_md(utf8(alias@), utf8(name@), utf8(target@)),
        valid_utf8(md@),
{
    let mut out: Vec<u8> = Vec::new();
    proof {
        crate::text::lemma_ascii_valid(out@);
        if utf8(name@) == lit("@use") {
            crate::text::lemma_utf8_injective(name@, "@use"@);
        }
    }
    push_lit(&mut out, "**Alias:** `");
    push_text(&mut out, alias);
    push_lit(&mut out, "`\n\nImported with `");
    push_text(&mut out, name);
    push_lit(&mut out, "`.\nTarget: `");
    push_text(&mut out, target);
    push_lit(&mut out, "`\n\nAvailable inside parse-only Lua expressions as a static ");
    if str_eq(name, "@use") {
        push_lit(&mut out, "module");
    } else {
        push_lit(&mut out, "import");
    }
    push_lit(&mut out, " alias.\n\n**Static node type:** `alias`");
    out
}

fn name_is(name: &str, word: &str) -> (r: bool)
    ensures
        r == (utf8(name@) == lit(word)),
{
    proof {
        if utf8(name@) == utf8(word@) {
            crate::text::lemma_utf8_injective(name@, word@);
        }
    }
    str_eq(name, word)
}

/// The hover of a directive: its name's documentation, or the alias it binds.
pub fn directive_hover(directive: &Directive, offset: usize, source: &SourceText) -> (r: Option<(SourceSpan, Vec<u8>)>)
    ensures
        hover_out(
            r,
            directive_hover_spec(
                source.bytes(),
                source.file_id,
                utf8(directive.name@),
                directive.span,
                crate::ast::opt_text(directive.value),
                offset as int,
            ),
        ),
{
    let span = directive.span;
    let line = match source.slice(span) {
        Some(l) => l,
        None => {
            return None;
        },
    };
    let t = line.as_bytes();
    proof {
        lemma_str_valid(line@);
        lemma_skip_ws_bounds(t@, 0, t@.len() as int);
    }
    let ts = trim_start_at(t, 0, t.len());
    let name_len = directive.name.as_str().as_bytes().len();
    if name_len > usize::MAX - (span.start + ts) {
        return None;
    }
    let ns = SourceSpan::new(span.file_id, span.start + ts, span.start + ts + name_len);
    if ns.start <= offset && offset < ns.end {
        match directive_markdown_exec(directive.name.as_str()) {
            Some(doc) => {
                let mut out: Vec<u8> = Vec::new();
                proof {
                    crate::text::lemma_ascii_valid(out@);
                }
                push_text(&mut out, doc);
                proof {
                    assert(out@ =~= utf8(doc@));
                }
                return Some((ns, out));
            },
            None => {
                return None;
            },
        }
    }
    if !(name_is(directive.name.as_str(), "@import") || name_is(directive.name.as_str(), "@use")) {
        return None;
    }
    let value = match &directive.value {
        Some(v) => v,
        None => {
            return None;
        },
    };
    let alias = match alias_exec(value.as_str()) {
        Some(a) => a,
        None => {
            return None;
        },
    };
    let a = alias.as_str().as_bytes();
    let ls = match rfind_pat_exec(t, 0, t.len(), a) {
        Some(p) => p,
        None => {
            return None;
        },
    };
    proof {
        lemma_rfind_pat_bounds(t@, 0, t@.len() as int, a@);
    }
    let asp = SourceSpan::new(span.file_id, span.start + ls, span.start + ls + a.len());
    if !(asp.start <= offset && offset < asp.end) {
        return None;
    }
    let at = match source.slice(asp) {
        Some(x) => x,
        None => {
            return None;
        },
    };
    let target = target_exec(value.as_str());
    let md = alias_directive_markdown(at, directive.name.as_str(), target.as_str());
    Some((asp, md))
}

// ---------------------------------------------------------------------------
// Let bindings
/// Where the name of `let NAME = ...` stands: four bytes into the line.
pub open spec fn let_name_span(name: Seq<u8>, span: SourceSpan) -> Option<SourceSpan> {
    if span.end >= span.start + 4 + name.len() {
        Some(
            SourceSpan {
                file_id: span.file_id,
                start: (span.start + 4) as usize,
                end: (span.start + 4 + name.len()) as usize,
            },
        )
    } else {
        None
    }
}

/// "**Let binding:** ..." on a binding's own name.
pub open spec fn let_md(name: Seq<u8>) -> Seq<u8> {
    lit("**Let binding:** `") + name + lit(
        "`\n\nLocal parse-only binding available to `${...}` expressions in the same document.\n\n**Static node type:** `binding`",
    )
}

/// A `let` line under the offset: its name, or an alias or binding named in its value.
pub open spec fn let_hover_spec(
    env: HoverEnv,
    name: Seq<u8>,
    span: SourceSpan,
    value_span: Option<SourceSpan>,
    offset: int,
) -> Option<HoverV> {
    match let_name_span(name, span) {
        None => None,
        Some(ns) => if contains(ns, offset) {
            Some((ns, let_md(name)))
        } else {
            match value_span {
                None => None,
                Some(vs) => match source_slice(env.norm, env.file_id, vs) {
                    None => None,
                    Some(t) => {
                        let tv = SourceSpan {
                            file_id: vs.file_id,
                            start: (vs.start + skip_ws(t, 0, t.len() as int)) as usize,
                            end: (vs.start + skip_ws_back(t, 0, t.len() as int)) as usize,
                        };
                        if !contains(tv, offset) {
                            None
                        } else {
                            ref_hover(env.norm, env.file_id, env.defs, tv, offset)
                        }
                    },
                },
            }
        },
    }
}

/// The hover of a `let` binding.
pub fn let_hover(binding: &LetBinding, offset: usize, source: &SourceText, defs: &Vec<Definition>) -> (r: Option<
    (SourceSpan, Vec<u8>),
>)
    ensures
        hover_out(
            r,
            let_hover_spec(
                env_of(source, defs@),
                utf8(binding.name@),
                binding.span,
                binding.value_span,
                offset as int,
            ),
        ),
{
    let span = binding.span;
    let name_len = binding.name.as_str().as_bytes().len();
    if span.end < span.start || span.end - span.start < 4 || name_len > span.end - span.start - 4 {
        return None;
    }
    let ns = SourceSpan::new(span.file_id, span.start + 4, span.start + 4 + name_len);
    if ns.start <= offset && offset < ns.end {
        let mut out: Vec<u8> = Vec::new();
        proof {
            crate::text::lemma_ascii_valid(out@);
        }
        push_lit(&mut out, "**Let binding:** `");
        push_text(&mut out, binding.name.as_str());
        push_lit(
            &mut out,
            "`\n\nLocal parse-only binding available to `${...}` expressions in the same document.\n\n**Static node type:** `binding`",
        );
        return Some((ns, out));
    }
    let vs = match binding.value_span {
        Some(v) => v,
        None => {
            return None;
        },
    };
    let text = match source.slice(vs) {
        Some(x) => x,
        None => {
            return None;
        },
    };
    let t = text.as_bytes();
    let ts = trim_start_at(t, 0, t.len());
    let te = trim_end_at(t, 0, t.len());
    let tv = SourceSpan::new(vs.file_id, vs.start + ts, vs.start + te);
    if !(tv.start <= offset && offset < tv.end) {
        return None;
    }
    value_reference_hover(tv, offset, source, defs)
}


/// A directive's hover covers the offset.
pub proof fn lemma_directive_hover_contains(
    norm: Seq<u8>,
    file_id: FileId,
    name: Seq<u8>,
    span: SourceSpan,
    value: Option<Seq<u8>>,
    offset: int,
)
    ensures
        directive_hover_spec(norm, file_id, name, span, value, offset) matches Some((s, _)) ==> s.start <= offset
            < s.end,
{
}

/// A `let` binding's hover covers the offset.
pub proof fn lemma_let_hover_contains(
    env: crate::hover::nodes::HoverEnv,
    name: Seq<u8>,
    span: SourceSpan,
    value_span: Option<SourceSpan>,
    offset: int,
)
    ensures
        let_hover_spec(env, name, span, value_span, offset) matches Some((s, _)) ==> s.start <= offset < s.end,
{
    match let_name_span(name, span) {
        None => {},
        Some(ns) => {
            if !contains(ns, offset) {
                match value_span {
                    None => {},
                    Some(vs) => match crate::code_actions::common::source_slice(env.norm, env.file_id, vs) {
                        None => {},
                        Some(t) => {
                            let tv = SourceSpan {
                                file_id: vs.file_id,
                                start: (vs.start + crate::text::skip_ws(t, 0, t.len() as int)) as usize,
                                end: (vs.start + crate::text::skip_ws_back(t, 0, t.len() as int)) as usize,
                            };
                            crate::hover::lookup::lemma_ref_hover_contains(env.norm, env.file_id, env.defs, tv, offset);
                        },
                    },
                }
            }
        },
    }
}

} // verus!
