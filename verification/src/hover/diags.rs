//! The diagnostics section of a hover.
use vstd::prelude::*;
use vstd::utf8::valid_utf8;

use crate::diagnostics::{diag_view, diag_views, stable_span, stable_span_spec, DiagV, Diagnostic};
use crate::hover::lookup::HoverV;
use crate::hover::markdown::{lit, push_lit};
use crate::navigation::contains;
use crate::syntax::{is_boundary, FileId, SourceSpan, SourceText};
use crate::text::{char_boundary, push_text, utf8};

verus! {

broadcast use vstd::utf8::valid_utf8_concat;

/// Where a diagnostic shows: its primary span made at least one character wide. An empty
/// span inside a character shows nowhere.
pub open spec fn diag_span(norm: Seq<u8>, file_id: FileId, d: DiagV) -> Option<SourceSpan> {
    match d.4 {
        None => None,
        Some(s) => if s.start == s.end && s.end <= norm.len() && !char_boundary(norm, s.start as int) {
            None
        } else {
            stable_span_spec(norm, file_id, s)
        },
    }
}

pub open spec fn diag_hit(norm: Seq<u8>, file_id: FileId, d: DiagV, offset: int) -> bool {
    match diag_span(norm, file_id, d) {
        Some(s) => contains(s, offset),
        None => false,
    }
}

/// The diagnostics among the first `k` that show at the offset, in order.
pub open spec fn hits(norm: Seq<u8>, file_id: FileId, ds: Seq<DiagV>, offset: int, k: int) -> Seq<DiagV>
    decreases k,
{
    if k <= 0 {
        seq![]
    } else if diag_hit(norm, file_id, ds[k - 1], offset) {
        hits(norm, file_id, ds, offset, k - 1).push(ds[k - 1])
    } else {
        hits(norm, file_id, ds, offset, k - 1)
    }
}

/// The first diagnostic from index `i` on that shows at the offset.
pub open spec fn first_hit(norm: Seq<u8>, file_id: FileId, ds: Seq<DiagV>, offset: int, i: int) -> Option<DiagV>
    decreases ds.len() - i,
{
    if i < 0 || i >= ds.len() {
        None
    } else if diag_hit(norm, file_id, ds[i], offset) {
        Some(ds[i])
    } else {
        first_hit(norm, file_id, ds, offset, i + 1)
    }
}

pub open spec fn notes_md(notes: Seq<Seq<char>>, k: int) -> Seq<u8>
    decreases k,
{
    if k <= 0 {
        seq![]
    } else {
        notes_md(notes, k - 1) + lit("\n  - ") + utf8(notes[k - 1])
    }
}

/// "- `CODE` message", then its notes.
pub open spec fn diag_md(d: DiagV) -> Seq<u8> {
    lit("\n- `") + utf8(d.0) + lit("` ") + utf8(d.3) + notes_md(d.7, d.7.len() as int)
}

pub open spec fn diags_md(ds: Seq<DiagV>, k: int) -> Seq<u8>
    decreases k,
{
    if k <= 0 {
        seq![]
    } else {
        diags_md(ds, k - 1) + diag_md(ds[k - 1])
    }
}

/// "**Diagnostics**" and one entry per diagnostic.
pub open spec fn section_md(ds: Seq<DiagV>) -> Seq<u8> {
    lit("**Diagnostics**") + diags_md(ds, ds.len() as int)
}

/// The hover of the first diagnostic at the offset, when nothing else is there.
pub open spec fn diagnostic_hover_spec(norm: Seq<u8>, file_id: FileId, ds: Seq<DiagV>, offset: int) -> Option<HoverV> {
    match first_hit(norm, file_id, ds, offset, 0) {
        None => None,
        Some(d) => match diag_span(norm, file_id, d) {
            Some(s) => Some((s, section_md(seq![d]))),
            None => None,
        },
    }
}

/// A hover's markdown with the section of every diagnostic at the offset after it, unless
/// there is none or the markdown is that section already.
pub open spec fn with_diagnostics(md: Seq<u8>, norm: Seq<u8>, file_id: FileId, ds: Seq<DiagV>, offset: int) -> Seq<u8> {
    let found = hits(norm, file_id, ds, offset, ds.len() as int);
    if found.len() == 0 {
        md
    } else if md == section_md(found) {
        md
    } else {
        md + lit("\n\n") + section_md(found)
    }
}

pub fn diag_span_exec(d: &Diagnostic, source: &SourceText) -> (r: Option<SourceSpan>)
    ensures
        r == diag_span(source.bytes(), source.file_id, diag_view(*d)),
{
    match d.primary_span {
        None => None,
        Some(s) => {
            let b = source.as_str().as_bytes();
            if s.start == s.end && s.end <= b.len() && !is_boundary(b, s.start) {
                None
            } else {
                stable_span(source, s)
            }
        },
    }
}

fn hit_exec(d: &Diagnostic, source: &SourceText, offset: usize) -> (r: bool)
    ensures
        r == diag_hit(source.bytes(), source.file_id, diag_view(*d), offset as int),
{
    match diag_span_exec(d, source) {
        Some(s) => s.start <= offset && offset < s.end,
        None => false,
    }
}

fn push_diagnostic(out: &mut Vec<u8>, d: &Diagnostic)
    requires
        valid_utf8(old(out)@),
    ensures
        final(out)@ == old(out)@ + diag_md(diag_view(*d)),
        valid_utf8(final(out)@),
{
    let ghost notes = d.notes@.map_values(|n: String| n@);
    push_lit(out, "\n- `");
    push_text(out, d.code.as_str());
    push_lit(out, "` ");
    push_text(out, d.message.as_str());
    let ghost head = out@;
    let n = d.notes.len();
    let mut i: usize = 0;
    while i < n
        invariant
            i <= n,
            n == d.notes@.len(),
            notes == d.notes@.map_values(|n: String| n@),
            out@ == head + notes_md(notes, i as int),
            valid_utf8(out@),
        decreases n - i,
    {
        push_lit(out, "\n  - ");
        push_text(out, d.notes[i].as_str());
        proof {
            assert(notes[i as int] == d.notes@[i as int]@);
        }
        i = i + 1;
    }
    proof {
        assert(diag_view(*d).7 == notes);
    }
}

/// The diagnostics section for some diagnostics.
pub fn render_diagnostics_section(ds: &Vec<&Diagnostic>) -> (md: Vec<u8>)
    ensures
        md@ == section_md(ds@.map_values(|d: &Diagnostic| diag_view(*d))),
        valid_utf8(md@),
{
    let ghost dv = ds@.map_values(|d: &Diagnostic| diag_view(*d));
    let mut out: Vec<u8> = Vec::new();
    proof {
        crate::text::lemma_ascii_valid(out@);
    }
    push_lit(&mut out, "**Diagnostics**");
    let ghost head = out@;
    let n = ds.len();
    let mut i: usize = 0;
    while i < n
        invariant
            i <= n,
            n == ds@.len(),
            dv == ds@.map_values(|d: &Diagnostic| diag_view(*d)),
            out@ == head + diags_md(dv, i as int),
            head == lit("**Diagnostics**"),
            valid_utf8(out@),
        decreases n - i,
    {
        push_diagnostic(&mut out, ds[i]);
        proof {
            assert(dv[i as int] == diag_view(*ds@[i as int]));
        }
        i = i + 1;
    }
    out
}

/// The diagnostics at the offset, in order.
fn matching_diagnostics<'a>(diagnostics: &'a Vec<Diagnostic>, source: &SourceText, offset: usize) -> (r: Vec<
    &'a Diagnostic,
>)
    ensures
        r@.map_values(|d: &Diagnostic| diag_view(*d)) == hits(
            source.bytes(),
            source.file_id,
            diag_views(diagnostics@),
            offset as int,
            diagnostics@.len() as int,
        ),
{
    let ghost dv = diag_views(diagnostics@);
    let mut out: Vec<&Diagnostic> = Vec::new();
    let n = diagnostics.len();
    let mut i: usize = 0;
    while i < n
        invariant
            i <= n,
            n == diagnostics@.len(),
            dv == diag_views(diagnostics@),
            out@.map_values(|d: &Diagnostic| diag_view(*d)) == hits(
                source.bytes(),
                source.file_id,
                dv,
                offset as int,
                i as int,
            ),
        decreases n - i,
    {
        let ghost before = out@;
        proof {
            assert(dv[i as int] == diag_view(diagnostics@[i as int]));
        }
        if hit_exec(&diagnostics[i], source, offset) {
            out.push(&diagnostics[i]);
            proof {
                assert(out@.map_values(|d: &Diagnostic| diag_view(*d)) =~= before.map_values(
                    |d: &Diagnostic| diag_view(*d),
                ).push(dv[i as int]));
            }
        }
        i = i + 1;
    }
    out
}

/// The hover of the first diagnostic at the offset.
pub fn diagnostic_hover(diagnostics: &Vec<Diagnostic>, source: &SourceText, offset: usize) -> (r: Option<
    (SourceSpan, Vec<u8>),
>)
    ensures
        match diagnostic_hover_spec(source.bytes(), source.file_id, diag_views(diagnostics@), offset as int) {
            None => r is None,
            Some((s, md)) => r matches Some((rs, rmd)) && rs == s && rmd@ == md && valid_utf8(md),
        },
{
    let ghost dv = diag_views(diagnostics@);
    let n = diagnostics.len();
    let mut i: usize = 0;
    while i < n
        invariant
            i <= n,
            n == diagnostics@.len(),
            dv == diag_views(diagnostics@),
            first_hit(source.bytes(), source.file_id, dv, offset as int, i as int) == first_hit(
                source.bytes(),
                source.file_id,
                dv,
                offset as int,
                0,
            ),
        decreases n - i,
    {
        proof {
            assert(dv[i as int] == diag_view(diagnostics@[i as int]));
        }
        if hit_exec(&diagnostics[i], source, offset) {
            let span = match diag_span_exec(&diagnostics[i], source) {
                Some(s) => s,
                None => {
                    return None;
                },
            };
            let mut single: Vec<&Diagnostic> = Vec::new();
            single.push(&diagnostics[i]);
            let md = render_diagnostics_section(&single);
            proof {
                assert(single@.map_values(|d: &Diagnostic| diag_view(*d)) =~= seq![dv[i as int]]);
            }
            return Some((span, md));
        }
        i = i + 1;
    }
    None
}

/// Appends the section of the diagnostics at the offset to a hover's markdown.
pub fn append_diagnostics(markdown: &mut Vec<u8>, diagnostics: &Vec<Diagnostic>, source: &SourceText, offset: usize)
    requires
        valid_utf8(old(markdown)@),
    ensures
        final(markdown)@ == with_diagnostics(
            old(markdown)@,
            source.bytes(),
            source.file_id,
            diag_views(diagnostics@),
            offset as int,
        ),
        valid_utf8(final(markdown)@),
{
    let matching = matching_diagnostics(diagnostics, source, offset);
    if matching.len() == 0 {
        return;
    }
    let section = render_diagnostics_section(&matching);
    if crate::text::bytes_eq(markdown.as_slice(), section.as_slice()) {
        return;
    }
    push_lit(markdown, "\n\n");
    let ghost before = markdown@;
    let n = section.len();
    crate::text::push_range(markdown, section.as_slice(), 0, n);
    proof {
        assert(section@.subrange(0, n as int) =~= section@);
    }
}


proof fn lemma_first_hit(norm: Seq<u8>, file_id: FileId, ds: Seq<DiagV>, offset: int, i: int)
    ensures
        first_hit(norm, file_id, ds, offset, i) matches Some(d) ==> diag_hit(norm, file_id, d, offset),
    decreases ds.len() - i,
{
    if 0 <= i < ds.len() && !diag_hit(norm, file_id, ds[i], offset) {
        lemma_first_hit(norm, file_id, ds, offset, i + 1);
    }
}

/// A diagnostic's hover covers the offset.
pub proof fn lemma_diagnostic_hover_contains(norm: Seq<u8>, file_id: FileId, ds: Seq<DiagV>, offset: int)
    ensures
        diagnostic_hover_spec(norm, file_id, ds, offset) matches Some((s, _)) ==> s.start <= offset < s.end,
{
    lemma_first_hit(norm, file_id, ds, offset, 0);
}

} // verus!
