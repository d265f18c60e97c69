//! All the code actions for a request, in order, one per title.
use vstd::prelude::*;
use vstd::utf8::valid_utf8;

use crate::code_actions::common::{ActionV, CodeAction, ContextDiagnostic};
use crate::code_actions::fixes::{
    duplicate_remove_action, duplicate_rename_action, normalize_directive_action, normalize_spec,
    opt_view, remove_dup_spec, rename_dup_spec, tabs_spec, tabs_to_spaces_action,
};
use crate::code_actions::input::{ActionCtx, ActionInput};
use crate::code_actions::selection::{
    actions_view, empty_value_to_null_action, header_spec, insert_luma_header_action, null_spec,
    organize_directives_action, organize_spec, quote_ambiguous_scalar_action, quote_spec,
    sel_normalize_spec, selection_duplicate_actions, selection_dups_spec,
    selection_normalize_directive_action,
};
use crate::code_actions::syntax_index::{
    docs_dirs, docs_entries, docs_scalars, index_syntax, leading_directives, leading_dirs,
};
use crate::formatting::{crlf_to_lf, split_lines, split_lines_spec, lines_view};
use crate::lexer::lexes;
use crate::parser::fallback::parse_file_spec;
use crate::parser::{parse_fallback, ParsedDocument};
use crate::position::{LineIndex, Range, line_slice_ok};
use crate::syntax::{FileId, ParsedFile};
use crate::text::{lemma_str_valid, str_eq, utf8};

verus! {

/// A request for code actions: the document, the selected range, the diagnostics the client
/// sends along, and whether import actions are enabled.
pub struct CodeActionRequest<'a> {
    pub file_id: FileId,
    pub uri: &'a str,
    pub text: &'a str,
    pub range: Range,
    pub diagnostics: &'a [ContextDiagnostic],
    pub imports_enabled: bool,
}

/// What the actions are computed from, for a document's text.
pub open spec fn action_ctx(raw: Seq<u8>, file_id: FileId) -> ActionCtx {
    let norm = crlf_to_lf(raw, 0);
    let docs = parse_file_spec(file_id, norm).0;
    ActionCtx {
        raw,
        norm,
        file_id,
        dirs: docs_dirs(docs, docs.len() as int),
        entries: docs_entries(docs, docs.len() as int),
        scalars: docs_scalars(docs, docs.len() as int),
        leading: leading_dirs(docs),
    }
}

/// The fixes for the first `k` diagnostics: L002 removes or renames a duplicate key, L003
/// replaces tabs, L009 normalizes a directive.
pub open spec fn diag_actions(c: ActionCtx, diags: Seq<ContextDiagnostic>, k: int) -> Seq<
    Option<ActionV>,
>
    decreases k,
{
    if k <= 0 {
        seq![]
    } else {
        let i = (k - 1) as usize;
        let d = diags[k - 1];
        diag_actions(c, diags, k - 1) + match d.code {
            Some(code) => if code@ == "L002"@ {
                seq![remove_dup_spec(c, i, d.range), rename_dup_spec(c, i, d.range)]
            } else if code@ == "L003"@ {
                seq![tabs_spec(c, i, d.range)]
            } else if code@ == "L009"@ {
                seq![normalize_spec(c, i, d.range)]
            } else {
                seq![]
            },
            None => seq![],
        }
    }
}

/// Every candidate action, in the order they are offered.
pub open spec fn candidates(c: ActionCtx, diags: Seq<ContextDiagnostic>, range: Range, imports: bool) -> Seq<
    Option<ActionV>,
> {
    diag_actions(c, diags, diags.len() as int) + seq![quote_spec(c, range)] + selection_dups_spec(
        c,
        range,
    ).map_values(|a: ActionV| Some(a)) + seq![
        sel_normalize_spec(c, range),
        null_spec(c, range),
        header_spec(c),
    ] + if imports {
        seq![organize_spec(c)]
    } else {
        seq![]
    }
}

pub open spec fn has_title(acc: Seq<ActionV>, t: Seq<u8>) -> bool {
    exists|i: int| 0 <= i < acc.len() && (#[trigger] acc[i]).title == t
}

/// The candidates that exist, each dropped when an earlier one has the same title.
pub open spec fn first_of_each_title(cands: Seq<Option<ActionV>>, k: int) -> Seq<ActionV>
    decreases k,
{
    if k <= 0 {
        seq![]
    } else {
        let acc = first_of_each_title(cands, k - 1);
        match cands[k - 1] {
            Some(a) => if has_title(acc, a.title) {
                acc
            } else {
                acc.push(a)
            },
            None => acc,
        }
    }
}

/// The code actions of a request.
pub open spec fn actions_spec(raw: Seq<u8>, file_id: FileId, diags: Seq<ContextDiagnostic>, range: Range, imports: bool) -> Seq<ActionV> {
    let cands = candidates(action_ctx(raw, file_id), diags, range, imports);
    first_of_each_title(cands, cands.len() as int)
}

fn has_title_exec(actions: &Vec<CodeAction>, title: &String) -> (r: bool)
    ensures
        r == has_title(actions_view(actions@), utf8(title@)),
{
    let ghost acc = actions_view(actions@);
    let n = actions.len();
    let mut i: usize = 0;
    while i < n
        invariant
            i <= n,
            n == actions@.len(),
            acc == actions_view(actions@),
            forall|j: int| 0 <= j < i ==> (#[trigger] acc[j]).title != utf8(title@),
        decreases n - i,
    {
        proof {
            assert(acc[i as int] == actions@[i as int].view_action());
            if utf8(actions@[i as int].title@) == utf8(title@) {
                crate::text::lemma_utf8_injective(actions@[i as int].title@, title@);
            }
        }
        if str_eq(actions[i].title.as_str(), title.as_str()) {
            return true;
        }
        i = i + 1;
    }
    false
}

/// Adds an action unless one with its title is there already.
fn push_action(actions: &mut Vec<CodeAction>, action: Option<CodeAction>)
    ensures
        actions_view(final(actions)@) == match opt_view(action) {
            Some(a) => if has_title(actions_view(old(actions)@), a.title) {
                actions_view(old(actions)@)
            } else {
                actions_view(old(actions)@).push(a)
            },
            None => actions_view(old(actions)@),
        },
{
    if let Some(a) = action {
        if !has_title_exec(actions, &a.title) {
            let ghost prev = actions@;
            actions.push(a);
            proof {
                assert(actions_view(actions@) =~= actions_view(prev).push(a.view_action()));
            }
        }
    }
}

proof fn lemma_step(cands: Seq<Option<ActionV>>, more: Seq<Option<ActionV>>, k: int)
    requires
        0 <= k <= cands.len(),
    ensures
        first_of_each_title(cands + more, k) == first_of_each_title(cands, k),
    decreases k,
{
    if k > 0 {
        lemma_step(cands, more, k - 1);
        assert((cands + more)[k - 1] == cands[k - 1]);
    }
}

/// Offering the candidates `more` after `cands`.
proof fn lemma_extend(cands: Seq<Option<ActionV>>, x: Option<ActionV>)
    ensures
        first_of_each_title(cands.push(x), cands.len() + 1int) == ({
            let acc = first_of_each_title(cands, cands.len() as int);
            match x {
                Some(a) => if has_title(acc, a.title) {
                    acc
                } else {
                    acc.push(a)
                },
                None => acc,
            }
        }),
{
    lemma_step(cands, seq![x], cands.len() as int);
    assert(cands.push(x) =~= cands + seq![x]);
}

fn push_candidate(actions: &mut Vec<CodeAction>, action: Option<CodeAction>, cands: Ghost<Seq<Option<ActionV>>>)
    requires
        actions_view(old(actions)@) == first_of_each_title(cands@, cands@.len() as int),
    ensures
        actions_view(final(actions)@) == first_of_each_title(
            cands@.push(opt_view(action)),
            cands@.len() + 1int,
        ),
{
    proof {
        lemma_extend(cands@, opt_view(action));
    }
    push_action(actions, action);
}

fn push_diagnostic_fixes(
    input: &ActionInput,
    diagnostics: &[ContextDiagnostic],
    actions: &mut Vec<CodeAction>,
)
    requires
        input.wf(),
        forall|i: int|
            0 <= i < diagnostics@.len() ==> line_slice_ok(input.ctx().raw, (#[trigger] diagnostics@[i]).range.start.line as int)
                && line_slice_ok(input.ctx().raw, diagnostics@[i].range.end.line as int),
        actions_view(old(actions)@).len() == 0,
    ensures
        actions_view(final(actions)@) == ({
            let cands = diag_actions(input.ctx(), diagnostics@, diagnostics@.len() as int);
            first_of_each_title(cands, cands.len() as int)
        }),
{
    let ghost c = input.ctx();
    let n = diagnostics.len();
    let mut i: usize = 0;
    proof {
        assert(actions_view(actions@) =~= first_of_each_title(diag_actions(c, diagnostics@, 0), 0));
    }
    while i < n
        invariant
            i <= n,
            n == diagnostics@.len(),
            c == input.ctx(),
            input.wf(),
            forall|j: int|
                0 <= j < diagnostics@.len() ==> line_slice_ok(c.raw, (#[trigger] diagnostics@[j]).range.start.line as int)
                    && line_slice_ok(c.raw, diagnostics@[j].range.end.line as int),
            actions_view(actions@) == first_of_each_title(
                diag_actions(c, diagnostics@, i as int),
                diag_actions(c, diagnostics@, i as int).len() as int,
            ),
        decreases n - i,
    {
        let d = &diagnostics[i];
        let ghost before = diag_actions(c, diagnostics@, i as int);
        proof {
            assert(line_slice_ok(c.raw, diagnostics@[i as int].range.start.line as int));
        }
        match &d.code {
            Some(code) => {
                if str_eq(code.as_str(), "L002") {
                    let a = duplicate_remove_action(input, i, d.range);
                    push_candidate(actions, a, Ghost(before));
                    let b = duplicate_rename_action(input, i, d.range);
                    push_candidate(actions, b, Ghost(before.push(opt_view(a))));
                    proof {
                        assert(diag_actions(c, diagnostics@, i + 1) =~= before.push(opt_view(a)).push(opt_view(b)));
                    }
                } else if str_eq(code.as_str(), "L003") {
                    let a = tabs_to_spaces_action(input, i, d.range);
                    push_candidate(actions, a, Ghost(before));
                    proof {
                        assert(diag_actions(c, diagnostics@, i + 1) =~= before.push(opt_view(a)));
                    }
                } else if str_eq(code.as_str(), "L009") {
                    let a = normalize_directive_action(input, i, d.range);
                    push_candidate(actions, a, Ghost(before));
                    proof {
                        assert(diag_actions(c, diagnostics@, i + 1) =~= before.push(opt_view(a)));
                    }
                } else {
                    proof {
                        assert(diag_actions(c, diagnostics@, i + 1) =~= before);
                    }
                }
            },
            None => {
                proof {
                    assert(diag_actions(c, diagnostics@, i + 1) =~= before);
                }
            },
        }
        i = i + 1;
    }
}

fn push_all(actions: &mut Vec<CodeAction>, more: Vec<CodeAction>, cands: Ghost<Seq<Option<ActionV>>>)
    requires
        actions_view(old(actions)@) == first_of_each_title(cands@, cands@.len() as int),
    ensures
        ({
            let all = cands@ + actions_view(more@).map_values(|a: ActionV| Some(a));
            actions_view(final(actions)@) == first_of_each_title(all, all.len() as int)
        }),
{
    let ghost mv = actions_view(more@).map_values(|a: ActionV| Some(a));
    let n = more.len();
    let mut rest = more;
    let mut i: usize = 0;
    let ghost all_more = rest@;
    while i < n
        invariant
            i <= n,
            n == all_more.len(),
            rest@ == all_more.subrange(i as int, n as int),
            mv == actions_view(all_more).map_values(|a: ActionV| Some(a)),
            actions_view(actions@) == first_of_each_title(
                cands@ + mv.subrange(0, i as int),
                cands@.len() + i as int,
            ),
        decreases n - i,
    {
        let a = rest.remove(0);
        proof {
            assert(a == all_more[i as int]);
            assert(cands@ + mv.subrange(0, i + 1) =~= (cands@ + mv.subrange(0, i as int)).push(
                opt_view(Some(a)),
            ));
        }
        push_candidate(actions, Some(a), Ghost(cands@ + mv.subrange(0, i as int)));
        proof {
            assert(rest@ =~= all_more.subrange(i + 1, n as int));
        }
        i = i + 1;
    }
    proof {
        assert(mv.subrange(0, n as int) =~= mv);
    }
}

fn collect_for(input: &ActionInput, diagnostics: &[ContextDiagnostic], range: Range, imports: bool) -> (actions: Vec<CodeAction>)
    requires
        input.wf(),
        line_slice_ok(input.ctx().raw, range.start.line as int),
        line_slice_ok(input.ctx().raw, range.end.line as int),
        forall|i: int|
            0 <= i < diagnostics@.len() ==> line_slice_ok(input.ctx().raw, (#[trigger] diagnostics@[i]).range.start.line as int)
                && line_slice_ok(input.ctx().raw, diagnostics@[i].range.end.line as int),
    ensures
        ({
            let cands = candidates(input.ctx(), diagnostics@, range, imports);
            actions_view(actions@) == first_of_each_title(cands, cands.len() as int)
        }),
{
    let ghost c = input.ctx();
    let mut actions: Vec<CodeAction> = Vec::new();
    proof {
        assert(actions_view(actions@) =~= Seq::<ActionV>::empty());
    }
    push_diagnostic_fixes(input, diagnostics, &mut actions);
    let ghost cands = diag_actions(c, diagnostics@, diagnostics@.len() as int);
    let quote = quote_ambiguous_scalar_action(input, range);
    push_candidate(&mut actions, quote, Ghost(cands));
    let ghost cands = cands.push(opt_view(quote));
    let dups = selection_duplicate_actions(input, range);
    let ghost dv = actions_view(dups@);
    push_all(&mut actions, dups, Ghost(cands));
    let ghost cands = cands + dv.map_values(|a: ActionV| Some(a));
    let sel = selection_normalize_directive_action(input, range);
    push_candidate(&mut actions, sel, Ghost(cands));
    let ghost cands = cands.push(opt_view(sel));
    let null = empty_value_to_null_action(input, range);
    push_candidate(&mut actions, null, Ghost(cands));
    let ghost cands = cands.push(opt_view(null));
    let header = insert_luma_header_action(input);
    push_candidate(&mut actions, header, Ghost(cands));
    let ghost cands = cands.push(opt_view(header));
    if imports {
        let organize = organize_directives_action(input);
        push_candidate(&mut actions, organize, Ghost(cands));
        proof {
            assert(cands.push(opt_view(organize)) =~= candidates(c, diagnostics@, range, true));
        }
    } else {
        proof {
            assert(cands =~= candidates(c, diagnostics@, range, false));
        }
    }
    actions
}

fn action_input(file_id: FileId, uri: &str, text: &str) -> (input: ActionInput)
    requires
        lexes(crlf_to_lf(utf8(text@), 0)),
        crlf_to_lf(utf8(text@), 0).len() <= isize::MAX,
    ensures
        input.wf(),
        input.ctx() == action_ctx(utf8(text@), file_id),
{
    let parsed = parse_fallback(file_id, uri, text);
    let ParsedDocument { source, file, .. } = parsed;
    let (syntax, leading) = match &file {
        ParsedFile::Fallback(f) => (index_syntax(&f.ast.documents), leading_directives(&f.ast.documents)),
    };
    let owned: String = text.to_owned();
    let index = LineIndex::new(text);
    proof {
        lemma_str_valid(text@);
    }
    let lines = split_lines(text.as_bytes());
    let input = ActionInput { text: owned, file_id, index, lines, source, syntax, leading };
    proof {
        assert(lines_view(input.lines@) =~= split_lines_spec(utf8(text@)));
    }
    input
}

/// The code actions for a request: the fixes for its diagnostics, then the actions for the
/// selected range, the `@luma` header and, with imports enabled, the order of directives;
/// each one only when no earlier action has its title.
pub fn collect(request: &CodeActionRequest) -> (actions: Vec<CodeAction>)
    requires
        lexes(crlf_to_lf(utf8(request.text@), 0)),
        crlf_to_lf(utf8(request.text@), 0).len() <= isize::MAX,
        line_slice_ok(utf8(request.text@), request.range.start.line as int),
        line_slice_ok(utf8(request.text@), request.range.end.line as int),
        forall|i: int|
            0 <= i < request.diagnostics@.len() ==> line_slice_ok(
                utf8(request.text@),
                (#[trigger] request.diagnostics@[i]).range.start.line as int,
            ) && line_slice_ok(utf8(request.text@), request.diagnostics@[i].range.end.line as int),
    ensures
        actions_view(actions@) == actions_spec(
            utf8(request.text@),
            request.file_id,
            request.diagnostics@,
            request.range,
            request.imports_enabled,
        ),
{
    let input = action_input(request.file_id, request.uri, request.text);
    collect_for(&input, request.diagnostics, request.range, request.imports_enabled)
}

} // verus!
