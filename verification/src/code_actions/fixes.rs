//! Quick fixes for the diagnostics that a request carries: duplicate keys (L002),
//! tab indentation (L003) and unknown directives (L009).
use vstd::prelude::*;
use vstd::utf8::valid_utf8;

use crate::code_actions::common::{
    lemma_line_for_range, find_name_span, line_end, line_for, line_for_offset, lit, make_action, name_span, overlap,
    overlaps, push_ticked, range_span, span_range, ticked, to_range, to_span, ActionV, CodeAction,
    CodeActionKind,
};
use crate::code_actions::edit_distance::{best_directive_suggestion, known_directives, suggestion_for};
use crate::code_actions::input::{ActionCtx, ActionInput};
use crate::code_actions::key_names::{lemma_next_name_valid, next_available_key_name, next_name};
use crate::code_actions::syntax_index::{DirV, EntV, IndexedDirective, IndexedEntry};
use crate::position::{Range, line_slice_ok};
use crate::syntax::SourceSpan;
use crate::text::{char_boundary, lemma_str_valid, lemma_utf8_injective, lemma_valid_subrange, push_text, str_eq, utf8};

verus! {

broadcast use vstd::utf8::valid_utf8_concat, vstd::utf8::encode_utf8_decode_utf8;

pub open spec fn opt_view(a: Option<CodeAction>) -> Option<ActionV> {
    match a {
        Some(x) => Some(x.view_action()),
        None => None,
    }
}

pub open spec fn first_key_overlap(es: Seq<EntV>, span: SourceSpan, k: int) -> Option<int>
    decreases es.len() - k,
{
    if k < 0 || k >= es.len() {
        None
    } else if overlap(es[k].1, span) {
        Some(k)
    } else {
        first_key_overlap(es, span, k + 1)
    }
}

pub open spec fn first_entry_overlap(es: Seq<EntV>, span: SourceSpan, k: int) -> Option<int>
    decreases es.len() - k,
{
    if k < 0 || k >= es.len() {
        None
    } else if overlap(es[k].2, span) {
        Some(k)
    } else {
        first_entry_overlap(es, span, k + 1)
    }
}

/// The entry that a diagnostic's span points at: the first whose key touches it, else the
/// first whose line does.
pub open spec fn match_entry(es: Seq<EntV>, span: SourceSpan) -> Option<int> {
    match first_key_overlap(es, span, 0) {
        Some(i) => Some(i),
        None => first_entry_overlap(es, span, 0),
    }
}

pub open spec fn first_dir_overlap(ds: Seq<DirV>, span: SourceSpan, k: int) -> Option<int>
    decreases ds.len() - k,
{
    if k < 0 || k >= ds.len() {
        None
    } else if overlap(ds[k].1, span) {
        Some(k)
    } else {
        first_dir_overlap(ds, span, k + 1)
    }
}

/// Removes the whole line of the duplicated key.
pub open spec fn remove_dup_spec(c: ActionCtx, i: usize, range: Range) -> Option<ActionV> {
    match range_span(c.raw, c.file_id, range) {
        None => None,
        Some(span) => match match_entry(c.entries, span) {
            None => None,
            Some(e) => match line_for(c.lines(), c.entries[e].1.start as int, 0) {
                None => None,
                Some(l) => match span_range(
                    c.raw,
                    SourceSpan {
                        file_id: c.file_id,
                        start: c.lines()[l].0 as usize,
                        end: c.lines()[l].1 as usize,
                    },
                ) {
                    None => None,
                    Some(r) => Some(
                        ActionV {
                            title: lit("Remove duplicate key ") + ticked(c.entries[e].0),
                            kind: CodeActionKind::QuickFix,
                            diagnostic: Some(i),
                            range: r,
                            new_text: seq![],
                            preferred: true,
                        },
                    ),
                },
            },
        },
    }
}

/// Renames the duplicated key to a fresh one.
pub open spec fn rename_dup_spec(c: ActionCtx, i: usize, range: Range) -> Option<ActionV> {
    match range_span(c.raw, c.file_id, range) {
        None => None,
        Some(span) => match match_entry(c.entries, span) {
            None => None,
            Some(e) => {
                let key = c.entries[e].0;
                let fresh = next_name(c.entries, key);
                if fresh == key {
                    None
                } else {
                    match span_range(c.raw, c.entries[e].1) {
                        None => None,
                        Some(r) => Some(
                            ActionV {
                                title: lit("Rename duplicate key to ") + ticked(fresh),
                                kind: CodeActionKind::QuickFix,
                                diagnostic: Some(i),
                                range: r,
                                new_text: fresh,
                                preferred: false,
                            },
                        ),
                    }
                }
            },
        },
    }
}

/// Tabs written as two spaces each.
pub open spec fn untab(s: Seq<u8>) -> Seq<u8>
    decreases s.len(),
{
    if s.len() == 0 {
        seq![]
    } else {
        untab(s.drop_last()) + if s.last() == 0x09 {
            seq![0x20u8, 0x20u8]
        } else {
            seq![s.last()]
        }
    }
}

/// `str::get` of a span of the text.
pub open spec fn text_get(raw: Seq<u8>, span: SourceSpan) -> Option<Seq<u8>> {
    if span.start <= span.end && span.end <= raw.len() && char_boundary(raw, span.start as int)
        && char_boundary(raw, span.end as int) {
        Some(raw.subrange(span.start as int, span.end as int))
    } else {
        None
    }
}

/// Replaces the tabs in the diagnostic's range.
pub open spec fn tabs_spec(c: ActionCtx, i: usize, range: Range) -> Option<ActionV> {
    match range_span(c.raw, c.file_id, range) {
        None => None,
        Some(span) => match text_get(c.raw, span) {
            None => None,
            Some(piece) => if untab(piece) == piece {
                None
            } else {
                match span_range(c.raw, span) {
                    None => None,
                    Some(r) => Some(
                        ActionV {
                            title: lit("Replace tab with two spaces"),
                            kind: CodeActionKind::QuickFix,
                            diagnostic: Some(i),
                            range: r,
                            new_text: untab(piece),
                            preferred: true,
                        },
                    ),
                }
            },
        },
    }
}

/// Replaces an unknown directive's name by the known one it most likely means.
pub open spec fn normalize_spec(c: ActionCtx, i: usize, range: Range) -> Option<ActionV> {
    match range_span(c.raw, c.file_id, range) {
        None => None,
        Some(span) => match first_dir_overlap(c.dirs, span, 0) {
            None => None,
            Some(d) => {
                let name = c.dirs[d].0;
                match suggestion_for(vstd::utf8::decode_utf8(name)) {
                    None => None,
                    Some(k) => {
                        let replacement = utf8(known_directives()[k]);
                        if replacement == name {
                            None
                        } else {
                            match name_span(c.norm, c.file_id, name, c.dirs[d].1) {
                                None => None,
                                Some(ns) => match span_range(c.raw, ns) {
                                    None => None,
                                    Some(r) => Some(
                                        ActionV {
                                            title: lit("Normalize directive to ") + ticked(
                                                replacement,
                                            ),
                                            kind: CodeActionKind::QuickFix,
                                            diagnostic: Some(i),
                                            range: r,
                                            new_text: replacement,
                                            preferred: true,
                                        },
                                    ),
                                },
                            }
                        }
                    },
                }
            },
        },
    }
}

// ---------------------------------------------------------------------------
fn first_key_overlap_exec(entries: &Vec<IndexedEntry>, span: SourceSpan) -> (r: Option<usize>)
    ensures
        match first_key_overlap(crate::code_actions::syntax_index::entries_view(entries@), span, 0) {
            Some(k) => r == Some(k as usize),
            None => r is None,
        },
{
    let ghost es = crate::code_actions::syntax_index::entries_view(entries@);
    let n = entries.len();
    let mut k: usize = 0;
    while k < n
        invariant
            k <= n,
            n == entries@.len(),
            es == crate::code_actions::syntax_index::entries_view(entries@),
            first_key_overlap(es, span, k as int) == first_key_overlap(es, span, 0),
        decreases n - k,
    {
        if overlaps(entries[k].key_span, span) {
            return Some(k);
        }
        k = k + 1;
    }
    None
}

fn first_entry_overlap_exec(entries: &Vec<IndexedEntry>, span: SourceSpan) -> (r: Option<usize>)
    ensures
        match first_entry_overlap(crate::code_actions::syntax_index::entries_view(entries@), span, 0) {
            Some(k) => r == Some(k as usize),
            None => r is None,
        },
{
    let ghost es = crate::code_actions::syntax_index::entries_view(entries@);
    let n = entries.len();
    let mut k: usize = 0;
    while k < n
        invariant
            k <= n,
            n == entries@.len(),
            es == crate::code_actions::syntax_index::entries_view(entries@),
            first_entry_overlap(es, span, k as int) == first_entry_overlap(es, span, 0),
        decreases n - k,
    {
        if overlaps(entries[k].span, span) {
            return Some(k);
        }
        k = k + 1;
    }
    None
}

fn match_entry_exec(entries: &Vec<IndexedEntry>, span: SourceSpan) -> (r: Option<usize>)
    ensures
        match match_entry(crate::code_actions::syntax_index::entries_view(entries@), span) {
            Some(k) => r == Some(k as usize),
            None => r is None,
        },
        r matches Some(k) ==> k < entries@.len(),
        match_entry(crate::code_actions::syntax_index::entries_view(entries@), span) matches Some(k)
            ==> 0 <= k < entries@.len() <= usize::MAX,
{
    let _count: usize = entries.len();
    proof {
        lemma_first_key_range(crate::code_actions::syntax_index::entries_view(entries@), span, 0);
        lemma_first_entry_range(crate::code_actions::syntax_index::entries_view(entries@), span, 0);
    }
    match first_key_overlap_exec(entries, span) {
        Some(k) => Some(k),
        None => first_entry_overlap_exec(entries, span),
    }
}

proof fn lemma_first_key_range(es: Seq<EntV>, span: SourceSpan, k: int)
    ensures
        first_key_overlap(es, span, k) matches Some(x) ==> k <= x < es.len(),
    decreases es.len() - k,
{
    if 0 <= k < es.len() {
        lemma_first_key_range(es, span, k + 1);
    }
}

proof fn lemma_first_entry_range(es: Seq<EntV>, span: SourceSpan, k: int)
    ensures
        first_entry_overlap(es, span, k) matches Some(x) ==> k <= x < es.len(),
    decreases es.len() - k,
{
    if 0 <= k < es.len() {
        lemma_first_entry_range(es, span, k + 1);
    }
}

proof fn lemma_first_dir_range(ds: Seq<DirV>, span: SourceSpan, k: int)
    ensures
        first_dir_overlap(ds, span, k) matches Some(x) ==> k <= x < ds.len(),
    decreases ds.len() - k,
{
    if 0 <= k < ds.len() {
        lemma_first_dir_range(ds, span, k + 1);
    }
}

fn first_dir_overlap_exec(dirs: &Vec<IndexedDirective>, span: SourceSpan) -> (r: Option<usize>)
    ensures
        match first_dir_overlap(crate::code_actions::syntax_index::dirs_view(dirs@), span, 0) {
            Some(k) => r == Some(k as usize),
            None => r is None,
        },
        r matches Some(k) ==> k < dirs@.len(),
        first_dir_overlap(crate::code_actions::syntax_index::dirs_view(dirs@), span, 0) matches Some(k)
            ==> 0 <= k < dirs@.len() <= usize::MAX,
{
    let ghost ds = crate::code_actions::syntax_index::dirs_view(dirs@);
    proof {
        lemma_first_dir_range(ds, span, 0);
    }
    let n = dirs.len();
    let mut k: usize = 0;
    while k < n
        invariant
            k <= n,
            n == dirs@.len(),
            ds == crate::code_actions::syntax_index::dirs_view(dirs@),
            first_dir_overlap(ds, span, k as int) == first_dir_overlap(ds, span, 0),
        decreases n - k,
    {
        if overlaps(dirs[k].span, span) {
            return Some(k);
        }
        k = k + 1;
    }
    None
}

pub(crate) fn duplicate_remove_action(input: &ActionInput, i: usize, range: Range) -> (r: Option<CodeAction>)
    requires
        input.wf(),
        line_slice_ok(input.ctx().raw, range.start.line as int),
        line_slice_ok(input.ctx().raw, range.end.line as int),
    ensures
        opt_view(r) == remove_dup_spec(input.ctx(), i, range),
{
    let ghost c = input.ctx();
    let span = match to_span(&input.index, input.text.as_str(), input.file_id, range) {
        Some(v) => v,
        None => {
            return None;
        },
    };
    let e = match match_entry_exec(&input.syntax.entries, span) {
        Some(v) => v,
        None => {
            return None;
        },
    };
    let entry = &input.syntax.entries[e];
    proof {
        assert(c.entries[e as int] == (utf8(entry.key@), entry.key_span, entry.span, entry.has_value));
        lemma_line_for_range(c.lines(), c.entries[e as int].1.start as int, 0);
    }
    let l = match line_for_offset(&input.lines, entry.key_span.start) {
        Some(l) => l,
        None => {
            return None;
        },
    };
    proof {
        assert(input.lines@[l as int].view_line() == c.lines()[l as int]);
    }
    let line = &input.lines[l];
    let delete = SourceSpan::new(input.file_id, line.start, line.end_with_newline);
    proof {
        assert(delete == SourceSpan {
            file_id: c.file_id,
            start: c.lines()[l as int].0 as usize,
            end: c.lines()[l as int].1 as usize,
        });
    }
    let r = match to_range(&input.index, input.text.as_str(), delete) {
        Some(v) => v,
        None => {
            return None;
        },
    };
    let mut title: Vec<u8> = Vec::new();
    proof {
        crate::text::lemma_ascii_valid(title@);
        lemma_str_valid(entry.key@);
    }
    push_text(&mut title, "Remove duplicate key ");
    push_ticked(&mut title, entry.key.as_str().as_bytes());
    let empty: Vec<u8> = Vec::new();
    proof {
        crate::text::lemma_ascii_valid(empty@);
    }
    Some(make_action(title, CodeActionKind::QuickFix, Some(i), r, empty, true))
}

pub(crate) fn duplicate_rename_action(input: &ActionInput, i: usize, range: Range) -> (r: Option<CodeAction>)
    requires
        input.wf(),
        line_slice_ok(input.ctx().raw, range.start.line as int),
        line_slice_ok(input.ctx().raw, range.end.line as int),
    ensures
        opt_view(r) == rename_dup_spec(input.ctx(), i, range),
{
    let ghost c = input.ctx();
    let span = match to_span(&input.index, input.text.as_str(), input.file_id, range) {
        Some(v) => v,
        None => {
            return None;
        },
    };
    let e = match match_entry_exec(&input.syntax.entries, span) {
        Some(v) => v,
        None => {
            return None;
        },
    };
    let entry = &input.syntax.entries[e];
    let key = entry.key.as_str().as_bytes();
    proof {
        assert(c.entries[e as int] == (utf8(entry.key@), entry.key_span, entry.span, entry.has_value));
        assert(c.entries[e as int].0 == key@);
    }
    let fresh = next_available_key_name(&input.syntax.entries, key);
    if crate::text::bytes_eq(fresh.as_slice(), key) {
        return None;
    }
    let r = match to_range(&input.index, input.text.as_str(), entry.key_span) {
        Some(v) => v,
        None => {
            return None;
        },
    };
    let mut title: Vec<u8> = Vec::new();
    proof {
        crate::text::lemma_ascii_valid(title@);
        lemma_str_valid(entry.key@);
        lemma_next_name_valid(c.entries, key@);
    }
    push_text(&mut title, "Rename duplicate key to ");
    push_ticked(&mut title, fresh.as_slice());
    Some(make_action(title, CodeActionKind::QuickFix, Some(i), r, fresh, false))
}

fn untab_exec(b: &[u8], start: usize, end: usize) -> (out: Vec<u8>)
    requires
        start <= end <= b@.len(),
    ensures
        out@ == untab(b@.subrange(start as int, end as int)),
{
    let mut out: Vec<u8> = Vec::new();
    let mut i = start;
    while i < end
        invariant
            start <= i <= end <= b@.len(),
            out@ == untab(b@.subrange(start as int, i as int)),
        decreases end - i,
    {
        let ghost prev = b@.subrange(start as int, i as int);
        if b[i] == 0x09 {
            out.push(0x20);
            out.push(0x20);
        } else {
            out.push(b[i]);
        }
        proof {
            let next = b@.subrange(start as int, i + 1);
            assert(next.drop_last() =~= prev);
            assert(next.last() == b@[i as int]);
            assert(out@ =~= untab(next));
        }
        i = i + 1;
    }
    out
}

proof fn lemma_untab_concat(a: Seq<u8>, b: Seq<u8>)
    ensures
        untab(a + b) == untab(a) + untab(b),
    decreases b.len(),
{
    if b.len() == 0 {
        assert(a + b =~= a);
        assert(untab(b) =~= Seq::<u8>::empty());
        assert(untab(a) + untab(b) =~= untab(a));
    } else {
        lemma_untab_concat(a, b.drop_last());
        assert((a + b).drop_last() =~= a + b.drop_last());
        assert((a + b).last() == b.last());
        assert(untab(a + b) =~= untab(a) + untab(b));
    }
}

proof fn lemma_untab_identity(s: Seq<u8>, k: int)
    requires
        0 <= k <= s.len(),
        forall|j: int| 0 <= j < k ==> s[j] != 0x09,
    ensures
        untab(s.subrange(0, k)) == s.subrange(0, k),
    decreases k,
{
    if k > 0 {
        lemma_untab_identity(s, k - 1);
        assert(s.subrange(0, k).drop_last() =~= s.subrange(0, k - 1));
        assert(untab(s.subrange(0, k)) =~= s.subrange(0, k));
    } else {
        assert(s.subrange(0, 0) =~= Seq::<u8>::empty());
    }
}

proof fn lemma_high_bit(y: u8)
    by (bit_vector)
    ensures
        (0x80u8 | y) >= 0x80,
        (0xC0u8 | y) >= 0x80,
        (0xE0u8 | y) >= 0x80,
        (0xF0u8 | y) >= 0x80,
{
}

/// The encoding of a character other than a tab holds no tab byte; a tab's is one byte.
proof fn lemma_untab_scalar(c: char)
    ensures
        c != '\t' ==> untab(vstd::utf8::encode_scalar(c as u32)) == vstd::utf8::encode_scalar(c as u32),
        c == '\t' ==> untab(vstd::utf8::encode_scalar(c as u32)) == seq![0x20u8, 0x20u8],
{
    let v = c as u32;
    let e = vstd::utf8::encode_scalar(v);
    if vstd::utf8::has_width_1_encoding(v) {
        assert((v & 0x7F) == v) by (bit_vector)
            requires
                v < 0x80,
        ;
        assert(e =~= seq![v as u8]);
        assert(e.drop_last() =~= Seq::<u8>::empty());
        assert(untab(e.drop_last()) =~= Seq::<u8>::empty());
        assert(e.last() == v as u8);
        assert(c == '\t' <==> v == 9);
        if c == '\t' {
            assert(untab(e) =~= seq![0x20u8, 0x20u8]);
        } else {
            assert(untab(e) =~= e);
        }
    } else {
        lemma_high_bit(((v >> 6) & 0x1F) as u8);
        lemma_high_bit(((v >> 12) & 0x0F) as u8);
        lemma_high_bit(((v >> 18) & 0x7) as u8);
        lemma_high_bit((v & 0x3F) as u8);
        lemma_high_bit(((v >> 6) & 0x3F) as u8);
        lemma_high_bit(((v >> 12) & 0x3F) as u8);
        assert forall|j: int| 0 <= j < e.len() implies e[j] != 0x09 by {
            assert(e[j] >= 0x80);
        }
        lemma_untab_identity(e, e.len() as int);
        assert(e.subrange(0, e.len() as int) =~= e);
    }
}

proof fn lemma_untab_encoded(cs: Seq<char>)
    ensures
        valid_utf8(untab(vstd::utf8::encode_utf8(cs))),
    decreases cs.len(),
{
    broadcast use vstd::utf8::encode_utf8_valid_utf8;

    if cs.len() == 0 {
        assert(untab(vstd::utf8::encode_utf8(cs)) =~= Seq::<u8>::empty());
        crate::text::lemma_ascii_valid(Seq::<u8>::empty());
    } else {
        let head = vstd::utf8::encode_scalar(cs[0] as u32);
        let tail = vstd::utf8::encode_utf8(cs.drop_first());
        lemma_untab_concat(head, tail);
        lemma_untab_encoded(cs.drop_first());
        lemma_untab_scalar(cs[0]);
        if cs[0] == '\t' {
            crate::text::lemma_ascii_valid(seq![0x20u8, 0x20u8]);
        } else {
            assert(vstd::utf8::encode_utf8(seq![cs[0]]) =~= head) by {
                assert(seq![cs[0]].drop_first() =~= Seq::<char>::empty());
                assert(vstd::utf8::encode_utf8(Seq::<char>::empty()) =~= Seq::<u8>::empty());
                assert(seq![cs[0]][0] == cs[0]);
            }
        }
    }
}

proof fn lemma_untab_valid(s: Seq<u8>)
    requires
        valid_utf8(s),
    ensures
        valid_utf8(untab(s)),
{
    broadcast use vstd::utf8::decode_utf8_encode_utf8;

    lemma_untab_encoded(vstd::utf8::decode_utf8(s));
}

pub(crate) fn tabs_to_spaces_action(input: &ActionInput, i: usize, range: Range) -> (r: Option<CodeAction>)
    requires
        input.wf(),
        line_slice_ok(input.ctx().raw, range.start.line as int),
        line_slice_ok(input.ctx().raw, range.end.line as int),
    ensures
        opt_view(r) == tabs_spec(input.ctx(), i, range),
{
    let ghost c = input.ctx();
    let span = match to_span(&input.index, input.text.as_str(), input.file_id, range) {
        Some(v) => v,
        None => {
            return None;
        },
    };
    let b = input.text.as_str().as_bytes();
    if !(span.start <= span.end && span.end <= b.len() && crate::syntax::is_boundary(b, span.start)
        && crate::syntax::is_boundary(b, span.end)) {
        return None;
    }
    let replacement = untab_exec(b, span.start, span.end);
    let ghost piece = b@.subrange(span.start as int, span.end as int);
    if crate::text::bytes_eq(replacement.as_slice(), &b[span.start..span.end]) {
        return None;
    }
    let r = match to_range(&input.index, input.text.as_str(), span) {
        Some(v) => v,
        None => {
            return None;
        },
    };
    let mut title: Vec<u8> = Vec::new();
    proof {
        crate::text::lemma_ascii_valid(title@);
        lemma_str_valid(input.text@);
        lemma_valid_subrange(b@, span.start as int, span.end as int);
        lemma_untab_valid(piece);
    }
    push_text(&mut title, "Replace tab with two spaces");
    Some(make_action(title, CodeActionKind::QuickFix, Some(i), r, replacement, true))
}

pub(crate) fn normalize_directive_action(input: &ActionInput, i: usize, range: Range) -> (r: Option<CodeAction>)
    requires
        input.wf(),
        line_slice_ok(input.ctx().raw, range.start.line as int),
        line_slice_ok(input.ctx().raw, range.end.line as int),
    ensures
        opt_view(r) == normalize_spec(input.ctx(), i, range),
{
    let ghost c = input.ctx();
    let span = match to_span(&input.index, input.text.as_str(), input.file_id, range) {
        Some(v) => v,
        None => {
            return None;
        },
    };
    let d = match first_dir_overlap_exec(&input.syntax.directives, span) {
        Some(v) => v,
        None => {
            return None;
        },
    };
    let directive = &input.syntax.directives[d];
    proof {
        assert(c.dirs[d as int] == (utf8(directive.name@), directive.span));
        assert(vstd::utf8::decode_utf8(vstd::utf8::encode_utf8(directive.name@)) == directive.name@);
        assert(vstd::utf8::decode_utf8(utf8(directive.name@)) == directive.name@);
    }
    let replacement = match best_directive_suggestion(directive.name.as_str()) {
        Some(v) => v,
        None => {
            return None;
        },
    };
    proof {
        if utf8(replacement@) == utf8(directive.name@) {
            lemma_utf8_injective(replacement@, directive.name@);
        }
    }
    if str_eq(replacement, directive.name.as_str()) {
        return None;
    }
    let ns = match find_name_span(&input.source, directive.name.as_str(), directive.span) {
        Some(v) => v,
        None => {
            return None;
        },
    };
    let r = match to_range(&input.index, input.text.as_str(), ns) {
        Some(v) => v,
        None => {
            return None;
        },
    };
    let mut title: Vec<u8> = Vec::new();
    let mut text: Vec<u8> = Vec::new();
    proof {
        crate::text::lemma_ascii_valid(title@);
        crate::text::lemma_ascii_valid(text@);
        lemma_str_valid(replacement@);
    }
    push_text(&mut title, "Normalize directive to ");
    push_ticked(&mut title, replacement.as_bytes());
    push_text(&mut text, replacement);
    proof {
        assert(text@ =~= utf8(replacement@));
    }
    Some(make_action(title, CodeActionKind::QuickFix, Some(i), r, text, true))
}

} // verus!
