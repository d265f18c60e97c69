//! Actions offered for the selected range: quoting ambiguous scalars, duplicate keys,
//! misspelled directives, empty values, the `@luma` header and the order of directives.
use vstd::prelude::*;
use vstd::utf8::valid_utf8;

use crate::code_actions::common::{
    find_name_span, lemma_line_for_range, line_end, line_for, line_for_offset, lit, make_action,
    name_span, overlap, overlaps, push_ticked, range_span, span_range, ticked, to_range, to_span,
    ActionV, CodeAction, CodeActionKind,
};
use crate::code_actions::edit_distance::{best_directive_suggestion, known_directive, known_directives, suggestion_for};
use crate::code_actions::fixes::opt_view;
use crate::code_actions::input::{ActionCtx, ActionInput};
use crate::code_actions::key_names::{lemma_next_name_valid, next_available_key_name, next_name};
use crate::code_actions::organize::{join_lines_with, join_with, sort_directive_lines, sorted_lines};
use crate::code_actions::syntax_index::{DirV, EntV, ScalV, dirs_view, entries_view, scalars_view};
use crate::ast::ScalarKind;
use crate::formatting::{contains_crlf, lines_view, preferred_line_ending, trim_bounds, trim_bounds_exec};
use crate::position::{Range, line_slice_ok};
use crate::syntax::SourceSpan;
use crate::text::{
    bytes_eq, find_byte, find_byte_exec, lemma_find_byte_bounds, lemma_str_valid, lemma_utf8_injective,
    lemma_valid_subrange, push_text, str_eq, utf8,
};

verus! {

broadcast use vstd::utf8::valid_utf8_concat, vstd::utf8::encode_utf8_decode_utf8;

/// `str::trim` of a piece of text.
pub open spec fn trimmed(t: Seq<u8>) -> Seq<u8> {
    t.subrange(trim_bounds(t).0, trim_bounds(t).1)
}

/// Plain words that readers may take for booleans or null.
pub open spec fn is_ambiguous(v: Seq<u8>) -> bool {
    ||| v == lit("true")
    ||| v == lit("false")
    ||| v == lit("null")
    ||| v == lit("nil")
    ||| v == lit("yes")
    ||| v == lit("no")
    ||| v == lit("on")
    ||| v == lit("off")
}

pub open spec fn first_quotable(ss: Seq<ScalV>, sel: SourceSpan, k: int) -> Option<int>
    decreases ss.len() - k,
{
    if k < 0 || k >= ss.len() {
        None
    } else if ss[k].0 == ScalarKind::Plain && overlap(sel, ss[k].1) && is_ambiguous(trimmed(ss[k].2)) {
        Some(k)
    } else {
        first_quotable(ss, sel, k + 1)
    }
}

/// Quotes the first plain scalar in the selection that reads like a boolean or null.
pub open spec fn quote_spec(c: ActionCtx, range: Range) -> Option<ActionV> {
    match range_span(c.raw, c.file_id, range) {
        None => None,
        Some(sel) => match first_quotable(c.scalars, sel, 0) {
            None => None,
            Some(q) => {
                let v = trimmed(c.scalars[q].2);
                match span_range(c.raw, c.scalars[q].1) {
                    None => None,
                    Some(r) => Some(
                        ActionV {
                            title: lit("Quote ambiguous scalar ") + ticked(v),
                            kind: CodeActionKind::QuickFix,
                            diagnostic: None,
                            range: r,
                            new_text: seq![0x22u8] + v + seq![0x22u8],
                            preferred: false,
                        },
                    ),
                }
            },
        },
    }
}

/// An earlier entry has the same key.
pub open spec fn seen_before(es: Seq<EntV>, k: int) -> bool {
    exists|j: int| 0 <= j < k && (#[trigger] es[j]).0 == es[k].0
}

/// For a repeated key whose line touches the selection: remove its line, rename it.
pub open spec fn dup_actions_at(c: ActionCtx, sel: SourceSpan, k: int) -> Seq<ActionV> {
    let es = c.entries;
    if !seen_before(es, k) {
        seq![]
    } else {
        match line_for(c.lines(), es[k].1.start as int, 0) {
            None => seq![],
            Some(l) => {
                let line = c.lines()[l];
                let line_span = SourceSpan {
                    file_id: c.file_id,
                    start: line.0 as usize,
                    end: line_end(line) as usize,
                };
                if !overlap(sel, line_span) {
                    seq![]
                } else {
                    let fresh = next_name(es, es[k].0);
                    (match span_range(
                        c.raw,
                        SourceSpan { file_id: c.file_id, start: line.0 as usize, end: line.1 as usize },
                    ) {
                        Some(r) => seq![
                            ActionV {
                                title: lit("Remove duplicate key ") + ticked(es[k].0),
                                kind: CodeActionKind::QuickFix,
                                diagnostic: None,
                                range: r,
                                new_text: seq![],
                                preferred: true,
                            },
                        ],
                        None => seq![],
                    }) + match span_range(c.raw, es[k].1) {
                        Some(r) => seq![
                            ActionV {
                                title: lit("Rename duplicate key to ") + ticked(fresh),
                                kind: CodeActionKind::QuickFix,
                                diagnostic: None,
                                range: r,
                                new_text: fresh,
                                preferred: false,
                            },
                        ],
                        None => seq![],
                    }
                }
            },
        }
    }
}

pub open spec fn dup_actions_upto(c: ActionCtx, sel: SourceSpan, k: int) -> Seq<ActionV>
    decreases k,
{
    if k <= 0 {
        seq![]
    } else {
        dup_actions_upto(c, sel, k - 1) + dup_actions_at(c, sel, k - 1)
    }
}

/// The duplicate-key actions for the selection, entry by entry.
pub open spec fn selection_dups_spec(c: ActionCtx, range: Range) -> Seq<ActionV> {
    match range_span(c.raw, c.file_id, range) {
        None => seq![],
        Some(sel) => dup_actions_upto(c, sel, c.entries.len() as int),
    }
}

/// The first unknown directive in the selection with a different suggestion, renamed to it.
/// A directive with no suggestion, or whose name cannot be found, ends the search.
pub open spec fn sel_normalize_from(c: ActionCtx, sel: SourceSpan, k: int) -> Option<ActionV>
    decreases c.dirs.len() - k,
{
    if k < 0 || k >= c.dirs.len() {
        None
    } else {
        let name = c.dirs[k].0;
        let chars = vstd::utf8::decode_utf8(name);
        if !overlap(sel, c.dirs[k].1) || known_directives().contains(chars) {
            sel_normalize_from(c, sel, k + 1)
        } else {
            match suggestion_for(chars) {
                None => None,
                Some(x) => {
                    let replacement = utf8(known_directives()[x]);
                    if replacement == name {
                        sel_normalize_from(c, sel, k + 1)
                    } else {
                        match name_span(c.norm, c.file_id, name, c.dirs[k].1) {
                            None => None,
                            Some(ns) => match span_range(c.raw, ns) {
                                None => None,
                                Some(r) => Some(
                                    ActionV {
                                        title: lit("Normalize directive to ") + ticked(replacement),
                                        kind: CodeActionKind::QuickFix,
                                        diagnostic: None,
                                        range: r,
                                        new_text: replacement,
                                        preferred: true,
                                    },
                                ),
                            },
                        }
                    }
                },
            }
        }
    }
}

pub open spec fn sel_normalize_spec(c: ActionCtx, range: Range) -> Option<ActionV> {
    match range_span(c.raw, c.file_id, range) {
        None => None,
        Some(sel) => sel_normalize_from(c, sel, 0),
    }
}

/// The first entry without a value, on a line that touches the selection, whose line has
/// nothing after its colon: ` null` appended to that line.
pub open spec fn null_from(c: ActionCtx, sel: SourceSpan, k: int) -> Option<ActionV>
    decreases c.entries.len() - k,
{
    if k < 0 || k >= c.entries.len() {
        None
    } else {
        let e = c.entries[k];
        match line_for(c.lines(), e.1.start as int, 0) {
            None => null_from(c, sel, k + 1),
            Some(l) => {
                let line = c.lines()[l];
                let line_span = SourceSpan {
                    file_id: c.file_id,
                    start: line.0 as usize,
                    end: line_end(line) as usize,
                };
                if e.3 || !overlap(sel, line_span) {
                    null_from(c, sel, k + 1)
                } else {
                    let t = trimmed(line.2);
                    match find_byte(t, 0, t.len() as int, 0x3a) {
                        None => null_from(c, sel, k + 1),
                        Some(p) => if trimmed(t.subrange(p + 1, t.len() as int)).len() > 0 {
                            null_from(c, sel, k + 1)
                        } else {
                            let at = SourceSpan {
                                file_id: c.file_id,
                                start: line_end(line) as usize,
                                end: line_end(line) as usize,
                            };
                            match span_range(c.raw, at) {
                                None => None,
                                Some(r) => Some(
                                    ActionV {
                                        title: lit("Convert empty value for ") + ticked(e.0) + lit(
                                            " to null",
                                        ),
                                        kind: CodeActionKind::QuickFix,
                                        diagnostic: None,
                                        range: r,
                                        new_text: lit(" null"),
                                        preferred: false,
                                    },
                                ),
                            }
                        },
                    }
                }
            },
        }
    }
}

pub open spec fn null_spec(c: ActionCtx, range: Range) -> Option<ActionV> {
    match range_span(c.raw, c.file_id, range) {
        None => None,
        Some(sel) => null_from(c, sel, 0),
    }
}

/// The line ending that the text prefers.
pub open spec fn line_ending_of(raw: Seq<u8>) -> Seq<u8> {
    if contains_crlf(raw) {
        seq![0x0du8, 0x0au8]
    } else {
        seq![0x0au8]
    }
}

/// `@luma 0.1` inserted at the top when no `@luma` directive exists.
pub open spec fn header_spec(c: ActionCtx) -> Option<ActionV> {
    if exists|k: int| 0 <= k < c.dirs.len() && (#[trigger] c.dirs[k]).0 == lit("@luma") {
        None
    } else {
        match span_range(c.raw, SourceSpan { file_id: c.file_id, start: 0, end: 0 }) {
            None => None,
            Some(r) => Some(
                ActionV {
                    title: lit("Insert @luma 0.1"),
                    kind: CodeActionKind::QuickFix,
                    diagnostic: None,
                    range: r,
                    new_text: lit("@luma 0.1") + line_ending_of(c.raw),
                    preferred: false,
                },
            ),
        }
    }
}

/// The first line from `k` that starts at `x`.
pub open spec fn line_starting_at(lines: Seq<crate::formatting::LineT>, x: int, k: int) -> Option<int>
    decreases lines.len() - k,
{
    if k < 0 || k >= lines.len() {
        None
    } else if lines[k].0 == x {
        Some(k)
    } else {
        line_starting_at(lines, x, k + 1)
    }
}

/// The leading directive lines in their canonical order, when there are at least two and
/// the order changes.
pub open spec fn organize_spec(c: ActionCtx) -> Option<ActionV> {
    let ds = c.leading;
    let lines = c.lines();
    if ds.len() < 2 {
        None
    } else {
        match (line_for(lines, ds[0].1.start as int, 0), line_for(lines, ds.last().1.start as int, 0)) {
            (Some(a), Some(b)) => match (
                line_starting_at(lines, lines[a].0, 0),
                line_starting_at(lines, lines[b].0, 0),
            ) {
                (Some(start), Some(last)) => {
                    let end = last + 1;
                    if start > end {
                        None
                    } else {
                        let texts = lines.subrange(start, end).map_values(
                            |l: crate::formatting::LineT| l.2,
                        );
                        let sorted = sorted_lines(texts);
                        if sorted == texts {
                            None
                        } else {
                            let le = line_ending_of(c.raw);
                            let replacement = join_with(sorted, le) + if lines[end - 1].3 {
                                le
                            } else {
                                seq![]
                            };
                            match span_range(
                                c.raw,
                                SourceSpan {
                                    file_id: c.file_id,
                                    start: lines[start].0 as usize,
                                    end: lines[end - 1].1 as usize,
                                },
                            ) {
                                None => None,
                                Some(r) => Some(
                                    ActionV {
                                        title: lit("Organize directives and imports"),
                                        kind: CodeActionKind::SourceOrganizeImports,
                                        diagnostic: None,
                                        range: r,
                                        new_text: replacement,
                                        preferred: false,
                                    },
                                ),
                            }
                        }
                    }
                },
                _ => None,
            },
            _ => None,
        }
    }
}

// ---------------------------------------------------------------------------
// Executable
pub open spec fn actions_view(s: Seq<CodeAction>) -> Seq<ActionV> {
    s.map_values(|a: CodeAction| a.view_action())
}

fn piece_is(b: &[u8], lo: usize, hi: usize, word: &str) -> (r: bool)
    requires
        lo <= hi <= b@.len(),
    ensures
        r == (b@.subrange(lo as int, hi as int) == lit(word)),
{
    crate::text::piece_eq(b, lo, hi, word.as_bytes())
}

fn is_ambiguous_exec(b: &[u8], lo: usize, hi: usize) -> (r: bool)
    requires
        lo <= hi <= b@.len(),
    ensures
        r == is_ambiguous(b@.subrange(lo as int, hi as int)),
{
    piece_is(b, lo, hi, "true") || piece_is(b, lo, hi, "false") || piece_is(b, lo, hi, "null")
        || piece_is(b, lo, hi, "nil") || piece_is(b, lo, hi, "yes") || piece_is(b, lo, hi, "no")
        || piece_is(b, lo, hi, "on") || piece_is(b, lo, hi, "off")
}

fn copy_range(b: &[u8], lo: usize, hi: usize) -> (out: Vec<u8>)
    requires
        lo <= hi <= b@.len(),
    ensures
        out@ == b@.subrange(lo as int, hi as int),
{
    let mut out: Vec<u8> = Vec::new();
    crate::text::push_range(&mut out, b, lo, hi);
    proof {
        assert(out@ =~= b@.subrange(lo as int, hi as int));
    }
    out
}

proof fn lemma_first_quotable_range(ss: Seq<ScalV>, sel: SourceSpan, k: int)
    ensures
        first_quotable(ss, sel, k) matches Some(x) ==> k <= x < ss.len(),
    decreases ss.len() - k,
{
    if 0 <= k < ss.len() {
        lemma_first_quotable_range(ss, sel, k + 1);
    }
}

pub(crate) fn quote_ambiguous_scalar_action(input: &ActionInput, range: Range) -> (r: Option<CodeAction>)
    requires
        input.wf(),
        line_slice_ok(input.ctx().raw, range.start.line as int),
        line_slice_ok(input.ctx().raw, range.end.line as int),
    ensures
        opt_view(r) == quote_spec(input.ctx(), range),
{
    let ghost c = input.ctx();
    let sel = match to_span(&input.index, input.text.as_str(), input.file_id, range) {
        Some(v) => v,
        None => {
            return None;
        },
    };
    let n = input.syntax.scalars.len();
    let mut k: usize = 0;
    while k < n
        invariant
            k <= n,
            n == input.syntax.scalars@.len(),
            c == input.ctx(),
            input.wf(),
            range_span(c.raw, c.file_id, range) == Some(sel),
            first_quotable(c.scalars, sel, k as int) == first_quotable(c.scalars, sel, 0),
        decreases n - k,
    {
        let sc = &input.syntax.scalars[k];
        let t = sc.text.as_str().as_bytes();
        proof {
            lemma_str_valid(sc.text@);
            assert(c.scalars[k as int] == (sc.kind, sc.span, utf8(sc.text@)));
        }
        let (s, e) = trim_bounds_exec(t);
        if sc.kind == ScalarKind::Plain && overlaps(sel, sc.span) && is_ambiguous_exec(t, s, e) {
            let r = match to_range(&input.index, input.text.as_str(), sc.span) {
                Some(v) => v,
                None => {
                    return None;
                },
            };
            let v = copy_range(t, s, e);
            let mut title: Vec<u8> = Vec::new();
            let mut text: Vec<u8> = Vec::new();
            proof {
                crate::text::lemma_ascii_valid(title@);
                crate::text::lemma_ascii_valid(text@);
                lemma_valid_subrange(t@, s as int, e as int);
            }
            push_text(&mut title, "Quote ambiguous scalar ");
            push_ticked(&mut title, v.as_slice());
            crate::text::push_ascii(&mut text, 0x22);
            let ghost mid = text@;
            crate::text::push_range(&mut text, v.as_slice(), 0, v.len());
            proof {
                assert(v@.subrange(0, v@.len() as int) =~= v@);
                assert(valid_utf8(mid + v@));
            }
            crate::text::push_ascii(&mut text, 0x22);
            proof {
                assert(text@ =~= seq![0x22u8] + v@ + seq![0x22u8]);
            }
            return Some(make_action(title, CodeActionKind::QuickFix, None, r, text, false));
        }
        k = k + 1;
    }
    None
}

fn seen_before_exec(entries: &Vec<crate::code_actions::syntax_index::IndexedEntry>, k: usize) -> (r: bool)
    requires
        k < entries@.len(),
    ensures
        r == seen_before(entries_view(entries@), k as int),
{
    let ghost es = entries_view(entries@);
    let key = entries[k].key.as_str().as_bytes();
    proof {
        assert(es[k as int].0 == key@);
    }
    let mut j: usize = 0;
    while j < k
        invariant
            j <= k < entries@.len(),
            es == entries_view(entries@),
            es[k as int].0 == key@,
            forall|x: int| 0 <= x < j ==> (#[trigger] es[x]).0 != es[k as int].0,
        decreases k - j,
    {
        if bytes_eq(entries[j].key.as_str().as_bytes(), key) {
            assert(es[j as int].0 == es[k as int].0);
            return true;
        }
        j = j + 1;
    }
    false
}

fn push_dup_actions(input: &ActionInput, sel: SourceSpan, k: usize, out: &mut Vec<CodeAction>)
    requires
        input.wf(),
        k < input.syntax.entries@.len(),
    ensures
        actions_view(final(out)@) == actions_view(old(out)@) + dup_actions_at(input.ctx(), sel, k as int),
{
    let ghost c = input.ctx();
    let ghost start = out@;
    if !seen_before_exec(&input.syntax.entries, k) {
        proof {
            assert(actions_view(out@) =~= actions_view(start) + dup_actions_at(c, sel, k as int));
        }
        return;
    }
    let entry = &input.syntax.entries[k];
    proof {
        assert(c.entries[k as int] == (utf8(entry.key@), entry.key_span, entry.span, entry.has_value));
        lemma_line_for_range(c.lines(), c.entries[k as int].1.start as int, 0);
    }
    let l = match line_for_offset(&input.lines, entry.key_span.start) {
        Some(l) => l,
        None => {
            proof {
                assert(actions_view(out@) =~= actions_view(start) + dup_actions_at(c, sel, k as int));
            }
            return;
        },
    };
    let line = &input.lines[l];
    proof {
        assert(lines_view(input.lines@)[l as int] == line.view_line());
        crate::formatting::lemma_split_line_bounds(c.raw, l as int);
    }
    let line_span = SourceSpan::new(input.file_id, line.start, line.start + line.content.len());
    proof {
        assert(line_span.end == line_end(c.lines()[l as int]));
    }
    if !overlaps(sel, line_span) {
        proof {
            assert(actions_view(out@) =~= actions_view(start) + dup_actions_at(c, sel, k as int));
        }
        return;
    }
    proof {
        lemma_str_valid(entry.key@);
    }
    let delete = SourceSpan::new(input.file_id, line.start, line.end_with_newline);
    let ghost s0 = out@;
    match to_range(&input.index, input.text.as_str(), delete) {
        Some(r) => {
            let mut title: Vec<u8> = Vec::new();
            let empty: Vec<u8> = Vec::new();
            proof {
                crate::text::lemma_ascii_valid(title@);
                crate::text::lemma_ascii_valid(empty@);
            }
            push_text(&mut title, "Remove duplicate key ");
            push_ticked(&mut title, entry.key.as_str().as_bytes());
            out.push(make_action(title, CodeActionKind::QuickFix, None, r, empty, true));
        },
        None => {},
    }
    let ghost s1 = out@;
    let key = entry.key.as_str().as_bytes();
    let fresh = next_available_key_name(&input.syntax.entries, key);
    proof {
        lemma_next_name_valid(c.entries, key@);
    }
    match to_range(&input.index, input.text.as_str(), entry.key_span) {
        Some(r) => {
            let mut title: Vec<u8> = Vec::new();
            proof {
                crate::text::lemma_ascii_valid(title@);
            }
            push_text(&mut title, "Rename duplicate key to ");
            push_ticked(&mut title, fresh.as_slice());
            out.push(make_action(title, CodeActionKind::QuickFix, None, r, fresh, false));
        },
        None => {},
    }
    proof {
        assert(actions_view(out@) =~= actions_view(start) + dup_actions_at(c, sel, k as int));
    }
}

pub(crate) fn selection_duplicate_actions(input: &ActionInput, range: Range) -> (actions: Vec<CodeAction>)
    requires
        input.wf(),
        line_slice_ok(input.ctx().raw, range.start.line as int),
        line_slice_ok(input.ctx().raw, range.end.line as int),
    ensures
        actions_view(actions@) == selection_dups_spec(input.ctx(), range),
{
    let ghost c = input.ctx();
    let mut out: Vec<CodeAction> = Vec::new();
    let sel = match to_span(&input.index, input.text.as_str(), input.file_id, range) {
        Some(v) => v,
        None => {
            proof {
                assert(actions_view(out@) =~= Seq::<ActionV>::empty());
            }
            return out;
        },
    };
    let n = input.syntax.entries.len();
    let mut k: usize = 0;
    while k < n
        invariant
            k <= n,
            n == input.syntax.entries@.len(),
            c == input.ctx(),
            input.wf(),
            actions_view(out@) =~= dup_actions_upto(c, sel, k as int),
        decreases n - k,
    {
        push_dup_actions(input, sel, k, &mut out);
        k = k + 1;
    }
    out
}

fn is_known_directive(name: &str) -> (r: bool)
    ensures
        r == known_directives().contains(name@),
{
    let mut j: usize = 0;
    while j < 8
        invariant
            j <= 8,
            forall|x: int| 0 <= x < j ==> known_directives()[x] != name@,
        decreases 8 - j,
    {
        if str_eq(known_directive(j), name) {
            assert(known_directives()[j as int] == name@);
            return true;
        }
        j = j + 1;
    }
    false
}

proof fn lemma_sel_normalize_skip(c: ActionCtx, sel: SourceSpan, k: int)
    requires
        0 <= k < c.dirs.len(),
        !overlap(sel, c.dirs[k].1) || known_directives().contains(vstd::utf8::decode_utf8(c.dirs[k].0)),
    ensures
        sel_normalize_from(c, sel, k) == sel_normalize_from(c, sel, k + 1),
{
}

pub(crate) fn selection_normalize_directive_action(input: &ActionInput, range: Range) -> (r: Option<CodeAction>)
    requires
        input.wf(),
        line_slice_ok(input.ctx().raw, range.start.line as int),
        line_slice_ok(input.ctx().raw, range.end.line as int),
    ensures
        opt_view(r) == sel_normalize_spec(input.ctx(), range),
{
    let ghost c = input.ctx();
    let sel = match to_span(&input.index, input.text.as_str(), input.file_id, range) {
        Some(v) => v,
        None => {
            return None;
        },
    };
    let n = input.syntax.directives.len();
    let mut k: usize = 0;
    while k < n
        invariant
            k <= n,
            n == input.syntax.directives@.len(),
            c == input.ctx(),
            input.wf(),
            range_span(c.raw, c.file_id, range) == Some(sel),
            sel_normalize_from(c, sel, k as int) == sel_normalize_from(c, sel, 0),
        decreases n - k,
    {
        let directive = &input.syntax.directives[k];
        proof {
            assert(c.dirs[k as int] == (utf8(directive.name@), directive.span));
            assert(vstd::utf8::decode_utf8(vstd::utf8::encode_utf8(directive.name@)) == directive.name@);
        }
        if !overlaps(sel, directive.span) || is_known_directive(directive.name.as_str()) {
            proof {
                lemma_sel_normalize_skip(c, sel, k as int);
            }
            k = k + 1;
            continue;
        }
        let replacement = match best_directive_suggestion(directive.name.as_str()) {
            Some(v) => v,
            None => {
                return None;
            },
        };
        proof {
            if utf8(replacement@) == utf8(directive.name@) {
                lemma_utf8_injective(replacement@, directive.name@);
            }
        }
        if str_eq(replacement, directive.name.as_str()) {
            k = k + 1;
            continue;
        }
        let ns = match find_name_span(&input.source, directive.name.as_str(), directive.span) {
            Some(v) => v,
            None => {
                return None;
            },
        };
        let r = match to_range(&input.index, input.text.as_str(), ns) {
            Some(v) => v,
            None => {
                return None;
            },
        };
        let mut title: Vec<u8> = Vec::new();
        let mut text: Vec<u8> = Vec::new();
        proof {
            crate::text::lemma_ascii_valid(title@);
            crate::text::lemma_ascii_valid(text@);
            lemma_str_valid(replacement@);
        }
        push_text(&mut title, "Normalize directive to ");
        push_ticked(&mut title, replacement.as_bytes());
        push_text(&mut text, replacement);
        return Some(make_action(title, CodeActionKind::QuickFix, None, r, text, true));
    }
    None
}

proof fn lemma_null_skip(c: ActionCtx, sel: SourceSpan, k: int)
    requires
        0 <= k < c.entries.len(),
        ({
            let e = c.entries[k];
            match line_for(c.lines(), e.1.start as int, 0) {
                None => true,
                Some(l) => {
                    let line = c.lines()[l];
                    let line_span = SourceSpan {
                        file_id: c.file_id,
                        start: line.0 as usize,
                        end: line_end(line) as usize,
                    };
                    e.3 || !overlap(sel, line_span) || ({
                        let t = trimmed(line.2);
                        match find_byte(t, 0, t.len() as int, 0x3a) {
                            None => true,
                            Some(p) => trimmed(t.subrange(p + 1, t.len() as int)).len() > 0,
                        }
                    })
                },
            }
        }),
    ensures
        null_from(c, sel, k) == null_from(c, sel, k + 1),
{
}

pub(crate) fn empty_value_to_null_action(input: &ActionInput, range: Range) -> (r: Option<CodeAction>)
    requires
        input.wf(),
        line_slice_ok(input.ctx().raw, range.start.line as int),
        line_slice_ok(input.ctx().raw, range.end.line as int),
    ensures
        opt_view(r) == null_spec(input.ctx(), range),
{
    let ghost c = input.ctx();
    let sel = match to_span(&input.index, input.text.as_str(), input.file_id, range) {
        Some(v) => v,
        None => {
            return None;
        },
    };
    let n = input.syntax.entries.len();
    let mut k: usize = 0;
    while k < n
        invariant
            k <= n,
            n == input.syntax.entries@.len(),
            c == input.ctx(),
            input.wf(),
            range_span(c.raw, c.file_id, range) == Some(sel),
            null_from(c, sel, k as int) == null_from(c, sel, 0),
        decreases n - k,
    {
        let entry = &input.syntax.entries[k];
        proof {
            assert(c.entries[k as int] == (utf8(entry.key@), entry.key_span, entry.span, entry.has_value));
            lemma_line_for_range(c.lines(), c.entries[k as int].1.start as int, 0);
        }
        let l = match line_for_offset(&input.lines, entry.key_span.start) {
            Some(l) => l,
            None => {
                proof {
                    lemma_null_skip(c, sel, k as int);
                }
                k = k + 1;
                continue;
            },
        };
        let line = &input.lines[l];
        proof {
            assert(lines_view(input.lines@)[l as int] == line.view_line());
            crate::formatting::lemma_split_line_bounds(c.raw, l as int);
        }
        let line_span = SourceSpan::new(input.file_id, line.start, line.start + line.content.len());
        if entry.has_value || !overlaps(sel, line_span) {
            proof {
                lemma_null_skip(c, sel, k as int);
            }
            k = k + 1;
            continue;
        }
        let content = line.content.as_slice();
        proof {
            assert(valid_utf8(input.lines@[l as int].content@));
        }
        let (s, e) = trim_bounds_exec(content);
        let t = copy_range(content, s, e);
        proof {
            lemma_valid_subrange(content@, s as int, e as int);
            lemma_find_byte_bounds(t@, 0, t@.len() as int, 0x3a);
        }
        let colon = match find_byte_exec(t.as_slice(), 0, t.len(), 0x3a) {
            Some(p) => p,
            None => {
                proof {
                    lemma_null_skip(c, sel, k as int);
                }
                k = k + 1;
                continue;
            },
        };
        proof {
            crate::text::lemma_boundary_after_ascii(t@, colon as int);
        }
        let rest = copy_range(t.as_slice(), colon + 1, t.len());
        proof {
            lemma_valid_subrange(t@, colon + 1, t@.len() as int);
        }
        let (a, b) = trim_bounds_exec(rest.as_slice());
        if a < b {
            proof {
                lemma_null_skip(c, sel, k as int);
            }
            k = k + 1;
            continue;
        }
        let end = line.start + line.content.len();
        let at = SourceSpan::new(input.file_id, end, end);
        let r = match to_range(&input.index, input.text.as_str(), at) {
            Some(v) => v,
            None => {
                return None;
            },
        };
        let mut title: Vec<u8> = Vec::new();
        let mut text: Vec<u8> = Vec::new();
        proof {
            crate::text::lemma_ascii_valid(title@);
            crate::text::lemma_ascii_valid(text@);
            lemma_str_valid(entry.key@);
        }
        push_text(&mut title, "Convert empty value for ");
        push_ticked(&mut title, entry.key.as_str().as_bytes());
        push_text(&mut title, " to null");
        push_text(&mut text, " null");
        return Some(make_action(title, CodeActionKind::QuickFix, None, r, text, false));
    }
    None
}

fn has_luma_directive(input: &ActionInput) -> (r: bool)
    ensures
        r == exists|k: int| 0 <= k < input.ctx().dirs.len() && (#[trigger] input.ctx().dirs[k]).0 == lit(
            "@luma",
        ),
{
    let ghost ds = input.ctx().dirs;
    let n = input.syntax.directives.len();
    let mut k: usize = 0;
    while k < n
        invariant
            k <= n,
            n == input.syntax.directives@.len(),
            ds == input.ctx().dirs,
            forall|x: int| 0 <= x < k ==> (#[trigger] ds[x]).0 != lit("@luma"),
        decreases n - k,
    {
        let name = &input.syntax.directives[k].name;
        proof {
            assert(ds[k as int].0 == utf8(name@));
            if utf8(name@) == utf8("@luma"@) {
                lemma_utf8_injective(name@, "@luma"@);
            }
        }
        if str_eq(name.as_str(), "@luma") {
            assert(ds[k as int].0 == lit("@luma"));
            return true;
        }
        k = k + 1;
    }
    false
}

fn push_line_ending(out: &mut Vec<u8>, crlf: bool)
    requires
        valid_utf8(old(out)@),
    ensures
        final(out)@ == old(out)@ + if crlf {
            seq![0x0du8, 0x0au8]
        } else {
            seq![0x0au8]
        },
        valid_utf8(final(out)@),
{
    let ghost before = out@;
    if crlf {
        crate::text::push_ascii(out, 0x0d);
    }
    crate::text::push_ascii(out, 0x0a);
    proof {
        if crlf {
            assert(out@ =~= before + seq![0x0du8, 0x0au8]);
        } else {
            assert(out@ =~= before + seq![0x0au8]);
        }
    }
}

pub(crate) fn insert_luma_header_action(input: &ActionInput) -> (r: Option<CodeAction>)
    requires
        input.wf(),
    ensures
        opt_view(r) == header_spec(input.ctx()),
{
    if has_luma_directive(input) {
        return None;
    }
    let crlf = preferred_line_ending(input.text.as_str().as_bytes());
    let at = SourceSpan::new(input.file_id, 0, 0);
    let r = match to_range(&input.index, input.text.as_str(), at) {
        Some(v) => v,
        None => {
            return None;
        },
    };
    let mut title: Vec<u8> = Vec::new();
    let mut text: Vec<u8> = Vec::new();
    proof {
        crate::text::lemma_ascii_valid(title@);
        crate::text::lemma_ascii_valid(text@);
    }
    push_text(&mut title, "Insert @luma 0.1");
    push_text(&mut text, "@luma 0.1");
    push_line_ending(&mut text, crlf);
    Some(make_action(title, CodeActionKind::QuickFix, None, r, text, false))
}

proof fn lemma_line_starting_range(lines: Seq<crate::formatting::LineT>, x: int, k: int)
    ensures
        line_starting_at(lines, x, k) matches Some(y) ==> k <= y < lines.len(),
    decreases lines.len() - k,
{
    if 0 <= k < lines.len() {
        lemma_line_starting_range(lines, x, k + 1);
    }
}

fn line_starting_at_exec(lines: &Vec<crate::formatting::Line>, x: usize) -> (r: Option<usize>)
    ensures
        match line_starting_at(lines_view(lines@), x as int, 0) {
            Some(k) => r == Some(k as usize) && 0 <= k < lines@.len() <= usize::MAX,
            None => r is None,
        },
{
    let ghost ls = lines_view(lines@);
    proof {
        lemma_line_starting_range(ls, x as int, 0);
    }
    let n = lines.len();
    let mut k: usize = 0;
    while k < n
        invariant
            k <= n,
            n == lines@.len(),
            ls == lines_view(lines@),
            line_starting_at(ls, x as int, k as int) == line_starting_at(ls, x as int, 0),
        decreases n - k,
    {
        if lines[k].start == x {
            return Some(k);
        }
        k = k + 1;
    }
    None
}

fn line_texts(lines: &Vec<crate::formatting::Line>, start: usize, end: usize) -> (texts: Vec<Vec<u8>>)
    requires
        start <= end <= lines@.len(),
    ensures
        texts@.map_values(|t: Vec<u8>| t@) == lines_view(lines@).subrange(start as int, end as int).map_values(
            |l: crate::formatting::LineT| l.2,
        ),
        forall|k: int| 0 <= k < texts@.len() ==> texts@[k]@ == lines@[start + k].content@,
{
    let mut texts: Vec<Vec<u8>> = Vec::new();
    let mut k = start;
    while k < end
        invariant
            start <= k <= end <= lines@.len(),
            texts@.len() == k - start,
            forall|j: int| 0 <= j < texts@.len() ==> texts@[j]@ == lines@[start + j].content@,
        decreases end - k,
    {
        let c = copy_range(lines[k].content.as_slice(), 0, lines[k].content.len());
        proof {
            assert(lines[k as int].content@.subrange(0, lines[k as int].content@.len() as int)
                =~= lines[k as int].content@);
        }
        texts.push(c);
        k = k + 1;
    }
    proof {
        assert(texts@.map_values(|t: Vec<u8>| t@) =~= lines_view(lines@).subrange(start as int, end as int).map_values(
            |l: crate::formatting::LineT| l.2,
        ));
    }
    texts
}

fn texts_eq(a: &Vec<Vec<u8>>, b: &Vec<Vec<u8>>) -> (r: bool)
    ensures
        r == (a@.map_values(|t: Vec<u8>| t@) == b@.map_values(|t: Vec<u8>| t@)),
{
    if a.len() != b.len() {
        proof {
            assert(a@.map_values(|t: Vec<u8>| t@).len() != b@.map_values(|t: Vec<u8>| t@).len());
        }
        return false;
    }
    let mut k: usize = 0;
    while k < a.len()
        invariant
            k <= a@.len(),
            a@.len() == b@.len(),
            forall|j: int| 0 <= j < k ==> a@[j]@ == b@[j]@,
        decreases a@.len() - k,
    {
        if !bytes_eq(a[k].as_slice(), b[k].as_slice()) {
            proof {
                assert(a@.map_values(|t: Vec<u8>| t@)[k as int] != b@.map_values(|t: Vec<u8>| t@)[k as int]);
            }
            return false;
        }
        k = k + 1;
    }
    proof {
        assert(a@.map_values(|t: Vec<u8>| t@) =~= b@.map_values(|t: Vec<u8>| t@));
    }
    true
}

pub(crate) proof fn lemma_join_valid(s: Seq<Seq<u8>>, sep: Seq<u8>)
    requires
        valid_utf8(sep),
        forall|k: int| 0 <= k < s.len() ==> valid_utf8(#[trigger] s[k]),
    ensures
        valid_utf8(join_with(s, sep)),
    decreases s.len(),
{
    if s.len() == 0 {
        crate::text::lemma_ascii_valid(Seq::<u8>::empty());
    } else if s.len() == 1 {
        assert(valid_utf8(s[0]));
    } else {
        assert forall|k: int| 0 <= k < s.drop_last().len() implies valid_utf8(#[trigger] s.drop_last()[k]) by {
            assert(s.drop_last()[k] == s[k]);
        }
        lemma_join_valid(s.drop_last(), sep);
        assert(valid_utf8(s.last()));
        assert(valid_utf8(join_with(s.drop_last(), sep) + sep));
        assert(valid_utf8(join_with(s.drop_last(), sep) + sep + s.last()));
    }
}

proof fn lemma_sorted_valid(s: Seq<Seq<u8>>)
    requires
        forall|k: int| 0 <= k < s.len() ==> valid_utf8(#[trigger] s[k]),
    ensures
        forall|k: int| 0 <= k < sorted_lines(s).len() ==> valid_utf8(#[trigger] sorted_lines(s)[k]),
        sorted_lines(s).len() == s.len(),
    decreases s.len(),
{
    if s.len() > 0 {
        lemma_sorted_valid(s.drop_last());
        let r = sorted_lines(s.drop_last());
        let p = crate::code_actions::organize::insert_pos(r, s.last(), 0);
        lemma_insert_pos_range(r, s.last(), 0);
        assert(valid_utf8(s.last()));
        assert forall|k: int| 0 <= k < sorted_lines(s).len() implies valid_utf8(#[trigger] sorted_lines(s)[k]) by {
            if k < p {
                assert(sorted_lines(s)[k] == r[k]);
            } else if k > p {
                assert(sorted_lines(s)[k] == r[k - 1]);
            }
        }
    }
}

proof fn lemma_insert_pos_range(s: Seq<Seq<u8>>, x: Seq<u8>, p: int)
    requires
        0 <= p,
    ensures
        0 <= crate::code_actions::organize::insert_pos(s, x, p) <= s.len(),
    decreases s.len() - p,
{
    if p < s.len() {
        lemma_insert_pos_range(s, x, p + 1);
    }
}

pub(crate) fn organize_directives_action(input: &ActionInput) -> (r: Option<CodeAction>)
    requires
        input.wf(),
    ensures
        opt_view(r) == organize_spec(input.ctx()),
{
    let ghost c = input.ctx();
    let ghost lines = c.lines();
    let nd = input.leading.len();
    if nd < 2 {
        return None;
    }
    proof {
        assert(c.leading[0] == (utf8(input.leading@[0].name@), input.leading@[0].span));
        assert(c.leading.last() == (utf8(input.leading@[nd - 1].name@), input.leading@[nd - 1].span));
        lemma_line_for_range(lines, c.leading[0].1.start as int, 0);
        lemma_line_for_range(lines, c.leading.last().1.start as int, 0);
    }
    let a = match line_for_offset(&input.lines, input.leading[0].span.start) {
        Some(v) => v,
        None => {
            return None;
        },
    };
    let b = match line_for_offset(&input.lines, input.leading[nd - 1].span.start) {
        Some(v) => v,
        None => {
            return None;
        },
    };
    proof {
        assert(lines[a as int] == input.lines@[a as int].view_line());
        assert(lines[b as int] == input.lines@[b as int].view_line());
    }
    let start = match line_starting_at_exec(&input.lines, input.lines[a].start) {
        Some(v) => v,
        None => {
            return None;
        },
    };
    let last = match line_starting_at_exec(&input.lines, input.lines[b].start) {
        Some(v) => v,
        None => {
            return None;
        },
    };
    let end = last + 1;
    if start > end {
        return None;
    }
    let original = line_texts(&input.lines, start, end);
    let ghost texts = original@.map_values(|t: Vec<u8>| t@);
    let copy = line_texts(&input.lines, start, end);
    let sorted = sort_directive_lines(copy);
    if texts_eq(&sorted, &original) {
        return None;
    }
    let crlf = preferred_line_ending(input.text.as_str().as_bytes());
    let mut sep: Vec<u8> = Vec::new();
    proof {
        crate::text::lemma_ascii_valid(sep@);
    }
    push_line_ending(&mut sep, crlf);
    let mut text = join_lines_with(&sorted, sep.as_slice());
    proof {
        assert forall|k: int| 0 <= k < texts.len() implies valid_utf8(#[trigger] texts[k]) by {
            assert(texts[k] == input.lines@[start + k].content@);
        }
        lemma_sorted_valid(texts);
        lemma_join_valid(sorted@.map_values(|t: Vec<u8>| t@), sep@);
        assert(sep@ == line_ending_of(c.raw));
    }
    let ghost joined = text@;
    if input.lines[end - 1].has_newline {
        push_line_ending(&mut text, crlf);
    }
    proof {
        assert(input.lines@[end - 1].view_line() == lines[end - 1]);
        if !input.lines@[end - 1].has_newline {
            assert(text@ =~= joined + Seq::<u8>::empty());
        }
    }
    let span = SourceSpan::new(input.file_id, input.lines[start].start, input.lines[end - 1].end_with_newline);
    proof {
        assert(input.lines@[start as int].view_line() == lines[start as int]);
    }
    let r = match to_range(&input.index, input.text.as_str(), span) {
        Some(v) => v,
        None => {
            return None;
        },
    };
    let mut title: Vec<u8> = Vec::new();
    proof {
        crate::text::lemma_ascii_valid(title@);
    }
    push_text(&mut title, "Organize directives and imports");
    Some(make_action(title, CodeActionKind::SourceOrganizeImports, None, r, text, false))
}

} // verus!
