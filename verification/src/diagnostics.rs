//! Diagnostics: the parser's errors and the validator's findings on the text and
//! the syntax tree.
use vstd::prelude::*;

use crate::formatting::{trim_bounds, trim_bounds_exec};
use crate::parser::fallback::{
    lines_with_offsets, parser_lines, pline_ok, views, PErrV, PLine, PLineV, line_span,
};
use crate::ast::{
    opt_is_leaf, AstFile, DocItemV, DocV, Document, DocumentItem, EntryV, Mapping, MappingEntry,
    Node, NodeV,
};
use crate::parser::ParsedDocument;
use crate::syntax::{FileId, ParsedFile, SourceSpan, SourceText};
use crate::text::{
    char_boundary, count_blank_run, lemma_str_valid, matches_at, matches_at_exec, piece_eq,
    run_of_blank, utf8,
};

verus! {

#[derive(Debug, Clone, Copy, PartialEq, Eq, PartialOrd, Ord, Hash, Structural)]
pub enum DiagnosticSeverity {
    Info,
    Warning,
    Error,
}

#[derive(Debug, Clone, Copy, PartialEq, Eq, PartialOrd, Ord, Hash, Structural)]
pub enum DiagnosticTag {
    Deprecated,
    Unnecessary,
}

#[derive(Debug, Clone, PartialEq, Eq, Hash)]
pub struct RelatedDiagnosticSpan {
    pub span: SourceSpan,
    pub message: String,
}

#[derive(Debug, Clone, PartialEq, Eq, Hash)]
pub struct Diagnostic {
    pub code: String,
    pub severity: DiagnosticSeverity,
    pub source: String,
    pub message: String,
    pub primary_span: Option<SourceSpan>,
    pub related_spans: Vec<RelatedDiagnosticSpan>,
    pub tags: Vec<DiagnosticTag>,
    pub notes: Vec<String>,
}

impl Diagnostic {
    /// A diagnostic from the `lumals` source with no span, related spans, tags or notes.
    pub fn new(code: &str, severity: DiagnosticSeverity, message: &str) -> (d: Self)
        ensures
            d.code@ == code@,
            d.severity == severity,
            d.source@ == "lumals"@,
            d.message@ == message@,
            d.primary_span is None,
            d.related_spans@.len() == 0,
            d.tags@.len() == 0,
            d.notes@.len() == 0,
    {
        Diagnostic {
            code: code.to_owned(),
            severity,
            source: "lumals".to_owned(),
            message: message.to_owned(),
            primary_span: None,
            related_spans: Vec::new(),
            tags: Vec::new(),
            notes: Vec::new(),
        }
    }

    /// The same diagnostic reported by another source.
    pub fn with_source(self, source: &str) -> (d: Self)
        ensures
            d.source@ == source@,
            d.code == self.code,
            d.severity == self.severity,
            d.message == self.message,
            d.primary_span == self.primary_span,
            d.related_spans == self.related_spans,
            d.tags == self.tags,
            d.notes == self.notes,
    {
        let mut d = self;
        d.source = source.to_owned();
        d
    }
}

/// `d` is an error of `source` with this code, message and span, and nothing else.
pub open spec fn is_error_diagnostic(
    d: Diagnostic,
    source: Seq<char>,
    code: Seq<char>,
    message: Seq<char>,
    span: SourceSpan,
) -> bool {
    &&& d.code@ == code
    &&& d.severity == DiagnosticSeverity::Error
    &&& d.source@ == source
    &&& d.message@ == message
    &&& d.primary_span == Some(span)
    &&& d.related_spans@.len() == 0
    &&& d.tags@.len() == 0
    &&& d.notes@.len() == 0
}

/// An error with a span from the given source.
pub fn error_diagnostic(source: &str, code: &str, message: &str, span: SourceSpan) -> (d:
    Diagnostic)
    ensures
        is_error_diagnostic(d, source@, code@, message@, span),
{
    let mut d = Diagnostic::new(code, DiagnosticSeverity::Error, message).with_source(source);
    d.primary_span = Some(span);
    d
}

// ---------------------------------------------------------------------------
// Findings of the validator
/// The diagnostics `ds` are errors from `source` with exactly the codes, messages and spans `es`.
pub open spec fn errors_match(ds: Seq<Diagnostic>, source: Seq<char>, es: Seq<PErrV>) -> bool {
    &&& ds.len() == es.len()
    &&& forall|k: int|
        0 <= k < ds.len() ==> is_error_diagnostic(#[trigger] ds[k], source, es[k].0, es[k].1, es[k].2)
}

/// `new` is `old` followed by validation errors for exactly `es`.
pub open spec fn appends(new: Seq<Diagnostic>, old: Seq<Diagnostic>, es: Seq<PErrV>) -> bool {
    &&& new.len() >= old.len()
    &&& new.subrange(0, old.len() as int) == old
    &&& errors_match(new.subrange(old.len() as int, new.len() as int), "lumals.validation"@, es)
}

pub proof fn lemma_appends_trans(
    a: Seq<Diagnostic>,
    b: Seq<Diagnostic>,
    c: Seq<Diagnostic>,
    e1: Seq<PErrV>,
    e2: Seq<PErrV>,
)
    requires
        appends(b, a, e1),
        appends(c, b, e2),
    ensures
        appends(c, a, e1 + e2),
{
    assert(c.subrange(0, a.len() as int) =~= b.subrange(0, a.len() as int)) by {
        assert forall|k: int| 0 <= k < a.len() implies c.subrange(0, a.len() as int)[k]
            == b.subrange(0, a.len() as int)[k] by {
            assert(c.subrange(0, b.len() as int)[k] == b[k]);
        }
    }
    let d = c.subrange(a.len() as int, c.len() as int);
    let d1 = b.subrange(a.len() as int, b.len() as int);
    let d2 = c.subrange(b.len() as int, c.len() as int);
    assert forall|k: int| 0 <= k < d.len() implies is_error_diagnostic(
        #[trigger] d[k],
        "lumals.validation"@,
        (e1 + e2)[k].0,
        (e1 + e2)[k].1,
        (e1 + e2)[k].2,
    ) by {
        if k < d1.len() {
            assert(d[k] == c[a.len() + k]);
            assert(c.subrange(0, b.len() as int)[a.len() + k] == b[a.len() + k]);
            assert(d1[k] == b[a.len() + k]);
        } else {
            assert(d[k] == d2[k - d1.len()]);
        }
    }
}

pub proof fn lemma_appends_refl(a: Seq<Diagnostic>)
    ensures
        appends(a, a, seq![]),
{
    assert(a.subrange(0, a.len() as int) =~= a);
    assert(a.subrange(a.len() as int, a.len() as int) =~= Seq::<Diagnostic>::empty());
}

/// Reports a validation error.
fn push_error(diagnostics: &mut Vec<Diagnostic>, code: &str, message: &str, span: SourceSpan)
    ensures
        appends(final(diagnostics)@, old(diagnostics)@, seq![(code@, message@, span)]),
{
    let ghost before = diagnostics@;
    diagnostics.push(validation_error(code, message, span));
    proof {
        assert(diagnostics@.subrange(0, before.len() as int) =~= before);
        let nd = diagnostics@.subrange(before.len() as int, diagnostics@.len() as int);
        assert(nd[0] == diagnostics@.last());
    }
}

/// An error of the validator.
fn validation_error(code: &str, message: &str, span: SourceSpan) -> (d: Diagnostic)
    ensures
        is_error_diagnostic(d, "lumals.validation"@, code@, message@, span),
{
    error_diagnostic("lumals.validation", code, message, span)
}

/// A NUL byte at each offset where the text holds one, from offset `i` on.
pub open spec fn nul_errors(f: FileId, b: Seq<u8>, i: int) -> Seq<PErrV>
    decreases b.len() - i,
{
    if i < 0 || i >= b.len() {
        seq![]
    } else {
        (if b[i] == 0 {
            seq![
                (
                    "L001"@,
                    "NUL bytes are not allowed"@,
                    SourceSpan { file_id: f, start: i as usize, end: (i + 1) as usize },
                ),
            ]
        } else {
            seq![]
        }) + nul_errors(f, b, i + 1)
    }
}

fn validate_nul_bytes(source: &SourceText, diagnostics: &mut Vec<Diagnostic>)
    ensures
        appends(final(diagnostics)@, old(diagnostics)@, nul_errors(source.file_id, source.bytes(), 0)),
{
    let b = source.as_str().as_bytes();
    let ghost d0 = diagnostics@;
    let ghost mut errs: Seq<PErrV> = seq![];
    proof {
        lemma_appends_refl(d0);
    }
    let mut i: usize = 0;
    while i < b.len()
        invariant
            i <= b@.len(),
            b@ == source.bytes(),
            appends(diagnostics@, d0, errs),
            nul_errors(source.file_id, b@, 0) =~= errs + nul_errors(source.file_id, b@, i as int),
        decreases b@.len() - i,
    {
        let ghost dm = diagnostics@;
        if b[i] == 0 {
            push_error(
                diagnostics,
                "L001",
                "NUL bytes are not allowed",
                SourceSpan::new(source.file_id, i, i + 1),
            );
            proof {
                let e = seq![("L001"@, "NUL bytes are not allowed"@, SourceSpan { file_id: source.file_id, start: i, end: (i + 1) as usize })];
                lemma_appends_trans(d0, dm, diagnostics@, errs, e);
                errs = errs + e;
            }
        }
        i = i + 1;
    }
    proof {
        assert(errs + Seq::<PErrV>::empty() =~= errs);
    }
}

// ---------------------------------------------------------------------------
// Indentation
pub open spec fn pop_above(stack: Seq<int>, indent: int) -> Seq<int>
    decreases stack.len(),
{
    if stack.len() > 0 && stack.last() > indent {
        pop_above(stack.drop_last(), indent)
    } else {
        stack
    }
}

/// Errors for the tabs among the leading blanks `t[o..lead]` of a line.
pub open spec fn tab_errors(f: FileId, l: PLineV, o: int, lead: int) -> Seq<PErrV>
    decreases lead - o,
{
    if o < 0 || o >= lead || o >= l.3.len() {
        seq![]
    } else {
        (if l.3[o] == 0x09 {
            seq![
                (
                    "L003"@,
                    "tabs in indentation are not allowed"@,
                    SourceSpan {
                        file_id: f,
                        start: (l.0 + o) as usize,
                        end: (l.0 + o + 1) as usize,
                    },
                ),
            ]
        } else {
            seq![]
        }) + tab_errors(f, l, o + 1, lead)
    }
}

pub open spec fn ends_with_byte(t: Seq<u8>, s: int, e: int, c: u8) -> bool {
    s < e && t[e - 1] == c
}

/// The trimmed line `t[s..e]` may be followed by a deeper block.
pub open spec fn allows_child(t: Seq<u8>, s: int, e: int) -> bool {
    ||| ends_with_byte(t, s, e, 0x3a)
    ||| ends_with_byte(t, s, e, 0x7c)
    ||| ends_with_byte(t, s, e, 0x3e)
    ||| matches_at(t, s, e, crate::parser::fallback::q_if())
    ||| matches_at(t, s, e, crate::parser::fallback::q_elif())
    ||| t.subrange(s, e) == crate::parser::fallback::q_else()
    ||| matches_at(t, s, e, crate::parser::fallback::for_kw())
    ||| matches_at(t, s, e, crate::parser::fallback::fence_lua())
}

pub open spec fn indent_span(f: FileId, l: PLineV) -> SourceSpan {
    SourceSpan { file_id: f, start: l.0 as usize, end: (l.0 + l.2) as usize }
}

/// The indentation check on one line: new stack of indentation levels, new previous line
/// (indent, whether it opens a block), and the errors.
pub open spec fn indent_step(
    f: FileId,
    l: PLineV,
    stack: Seq<int>,
    previous: Option<(int, bool)>,
) -> (Seq<int>, Option<(int, bool)>, Seq<PErrV>) {
    let t = l.3;
    let n = t.len() as int;
    let tb = trim_bounds(t);
    if tb.0 == tb.1 || t[tb.0] == 0x23 {
        (stack, previous, seq![])
    } else {
        let errs1 = tab_errors(f, l, 0, run_of_blank(t, 0, n));
        let errs2 = if l.2 % 2 != 0 {
            seq![("L004"@, "indentation must use multiples of two spaces"@, indent_span(f, l))]
        } else {
            seq![]
        };
        let current = if stack.len() > 0 {
            stack.last()
        } else {
            0
        };
        let allows = previous matches Some(p) && p.1;
        let popped = pop_above(stack, l.2);
        let top = if popped.len() > 0 {
            popped.last()
        } else {
            0
        };
        let stack2 = if l.2 > current {
            stack.push(l.2)
        } else if l.2 < current {
            if top != l.2 {
                popped.push(l.2)
            } else {
                popped
            }
        } else {
            stack
        };
        let errs3 = if l.2 > current {
            if !allows || l.2 != current + 2 {
                seq![("L005"@, "invalid indentation increase"@, indent_span(f, l))]
            } else {
                seq![]
            }
        } else if l.2 < current && top != l.2 {
            seq![("L006"@, "indentation does not match any enclosing block"@, indent_span(f, l))]
        } else {
            seq![]
        };
        (stack2, Some((l.2, allows_child(t, tb.0, tb.1))), errs1 + errs2 + errs3)
    }
}

/// Indentation errors of the lines from `k` on.
pub open spec fn indent_errors(
    f: FileId,
    ls: Seq<PLineV>,
    k: int,
    stack: Seq<int>,
    previous: Option<(int, bool)>,
) -> Seq<PErrV>
    decreases ls.len() - k,
{
    if k < 0 || k >= ls.len() {
        seq![]
    } else {
        let st = indent_step(f, ls[k], stack, previous);
        st.2 + indent_errors(f, ls, k + 1, st.0, st.1)
    }
}

fn allows_child_exec(t: &[u8], s: usize, e: usize) -> (r: bool)
    requires
        s <= e <= t@.len(),
    ensures
        r == allows_child(t@, s as int, e as int),
{
    let if_pat: [u8; 4] = [0x3f, 0x69, 0x66, 0x20];
    let elif_pat: [u8; 6] = [0x3f, 0x65, 0x6c, 0x69, 0x66, 0x20];
    let else_pat: [u8; 5] = [0x3f, 0x65, 0x6c, 0x73, 0x65];
    let for_pat: [u8; 5] = [0x2a, 0x66, 0x6f, 0x72, 0x20];
    let fence: [u8; 6] = [0x60, 0x60, 0x60, 0x6c, 0x75, 0x61];
    proof {
        assert(if_pat@ =~= crate::parser::fallback::q_if());
        assert(elif_pat@ =~= crate::parser::fallback::q_elif());
        assert(else_pat@ =~= crate::parser::fallback::q_else());
        assert(for_pat@ =~= crate::parser::fallback::for_kw());
        assert(fence@ =~= crate::parser::fallback::fence_lua());
    }
    (s < e && (t[e - 1] == 0x3a || t[e - 1] == 0x7c || t[e - 1] == 0x3e)) || matches_at_exec(
        t,
        s,
        e,
        if_pat.as_slice(),
    ) || matches_at_exec(t, s, e, elif_pat.as_slice()) || piece_eq(t, s, e, else_pat.as_slice())
        || matches_at_exec(t, s, e, for_pat.as_slice()) || matches_at_exec(
        t,
        s,
        e,
        fence.as_slice(),
    )
}

pub open spec fn stack_ints(stack: Seq<usize>) -> Seq<int> {
    stack.map_values(|x: usize| x as int)
}

pub open spec fn prev_ints(p: Option<(usize, bool)>) -> Option<(int, bool)> {
    match p {
        Some(x) => Some((x.0 as int, x.1)),
        None => None,
    }
}

/// Reports the tabs among the leading blanks of a line.
fn check_tabs(f: FileId, line: &PLine, diagnostics: &mut Vec<Diagnostic>)
    requires
        pline_ok(line.view_line()),
        line.start + line.text@.len() + 2 <= usize::MAX,
    ensures
        appends(
            final(diagnostics)@,
            old(diagnostics)@,
            tab_errors(
                f,
                line.view_line(),
                0,
                run_of_blank(line.text@, 0, line.text@.len() as int),
            ),
        ),
{
    let t = line.text.as_slice();
    let lead = count_blank_run(t, 0, t.len());
    let ghost l = line.view_line();
    let ghost d0 = diagnostics@;
    let ghost mut errs: Seq<PErrV> = seq![];
    proof {
        lemma_appends_refl(d0);
    }
    let mut o: usize = 0;
    while o < lead
        invariant
            o <= lead <= t@.len(),
            l == line.view_line(),
            t@ == l.3,
            lead == run_of_blank(t@, 0, t@.len() as int),
            line.start + t@.len() + 2 <= usize::MAX,
            appends(diagnostics@, d0, errs),
            tab_errors(f, l, 0, lead as int) =~= errs + tab_errors(f, l, o as int, lead as int),
        decreases lead - o,
    {
        let ghost dm = diagnostics@;
        if t[o] == 0x09 {
            push_error(
                diagnostics,
                "L003",
                "tabs in indentation are not allowed",
                SourceSpan::new(f, line.start + o, line.start + o + 1),
            );
            proof {
                let e = seq![
                    (
                        "L003"@,
                        "tabs in indentation are not allowed"@,
                        SourceSpan { file_id: f, start: (line.start + o) as usize, end: (line.start + o + 1) as usize },
                    ),
                ];
                lemma_appends_trans(d0, dm, diagnostics@, errs, e);
                errs = errs + e;
            }
        }
        o = o + 1;
    }
    proof {
        assert(tab_errors(f, l, o as int, lead as int) =~= Seq::<PErrV>::empty());
        assert(errs + Seq::<PErrV>::empty() =~= errs);
    }
}

/// The indentation check on one line.
fn indent_line(
    f: FileId,
    line: &PLine,
    stack: &mut Vec<usize>,
    previous: Option<(usize, bool)>,
    diagnostics: &mut Vec<Diagnostic>,
) -> (next: Option<(usize, bool)>)
    requires
        pline_ok(line.view_line()),
        line.start + line.text@.len() + 2 <= usize::MAX,
        forall|i: int| 0 <= i < old(stack)@.len() ==> #[trigger] old(stack)@[i] + 2 <= usize::MAX,
    ensures
        ({
            let st = indent_step(f, line.view_line(), stack_ints(old(stack)@), prev_ints(previous));
            &&& stack_ints(final(stack)@) == st.0
            &&& prev_ints(next) == st.1
            &&& appends(final(diagnostics)@, old(diagnostics)@, st.2)
        }),
        forall|i: int| 0 <= i < final(stack)@.len() ==> #[trigger] final(stack)@[i] + 2 <= usize::MAX,
{
    let ghost l = line.view_line();
    let ghost st0 = stack_ints(stack@);
    let ghost d0 = diagnostics@;
    let t = line.text.as_slice();
    let (s, e) = trim_bounds_exec(t);
    if s == e || t[s] == 0x23 {
        proof {
            lemma_appends_refl(d0);
        }
        return previous;
    }
    check_tabs(f, line, diagnostics);
    let ghost d1 = diagnostics@;
    let ghost e1 = tab_errors(f, l, 0, run_of_blank(t@, 0, t@.len() as int));
    let indent = line.indent;
    let span = SourceSpan::new(f, line.start, line.start + indent);
    if indent % 2 != 0 {
        push_error(diagnostics, "L004", "indentation must use multiples of two spaces", span);
    } else {
        proof {
            lemma_appends_refl(d1);
        }
    }
    let ghost d2 = diagnostics@;
    let ghost e2 = if l.2 % 2 != 0 {
        seq![("L004"@, "indentation must use multiples of two spaces"@, indent_span(f, l))]
    } else {
        Seq::<PErrV>::empty()
    };
    proof {
        lemma_appends_trans(d0, d1, d2, e1, e2);
    }
    let current: usize = if stack.len() > 0 {
        stack[stack.len() - 1]
    } else {
        0
    };
    let allows = match previous {
        Some(p) => p.1,
        None => false,
    };
    if indent > current {
        if !allows || indent != current + 2 {
            push_error(diagnostics, "L005", "invalid indentation increase", span);
        } else {
            proof {
                lemma_appends_refl(d2);
            }
        }
        stack.push(indent);
        proof {
            assert(stack_ints(stack@) =~= st0.push(indent as int));
        }
    } else if indent < current {
        let ghost orig = stack@;
        while stack.len() > 0 && stack[stack.len() - 1] > indent
            invariant
                pop_above(stack_ints(orig), indent as int) == pop_above(stack_ints(stack@), indent as int),
                stack@.len() <= orig.len(),
                forall|i: int| 0 <= i < stack@.len() ==> #[trigger] stack@[i] + 2 <= usize::MAX,
            decreases stack@.len(),
        {
            let ghost before = stack@;
            stack.pop();
            proof {
                assert(stack_ints(before).drop_last() =~= stack_ints(stack@));
            }
        }
        proof {
            assert(pop_above(stack_ints(stack@), indent as int) == stack_ints(stack@));
        }
        let top: usize = if stack.len() > 0 {
            stack[stack.len() - 1]
        } else {
            0
        };
        if top != indent {
            push_error(
                diagnostics,
                "L006",
                "indentation does not match any enclosing block",
                span,
            );
            let ghost popped = stack@;
            stack.push(indent);
            proof {
                assert(stack_ints(stack@) =~= stack_ints(popped).push(indent as int));
            }
        } else {
            proof {
                lemma_appends_refl(d2);
            }
        }
    } else {
        proof {
            lemma_appends_refl(d2);
        }
    }
    proof {
        let st = indent_step(f, l, st0, prev_ints(previous));
        let e3 = diagnostics@.subrange(d2.len() as int, diagnostics@.len() as int);
        lemma_appends_trans(d0, d2, diagnostics@, e1 + e2, st.2.subrange((e1 + e2).len() as int, st.2.len() as int));
        assert(e1 + e2 + st.2.subrange((e1 + e2).len() as int, st.2.len() as int) =~= st.2);
    }
    Some((indent, allows_child_exec(t, s, e)))
}

/// Lines that are kept text and whose offsets fit once two is added.
pub(crate) open spec fn lines_fit(lines: Seq<PLine>) -> bool {
    forall|k: int|
        0 <= k < lines.len() ==> pline_ok(#[trigger] lines[k].view_line()) && lines[k].start
            + lines[k].text@.len() + 2 <= usize::MAX
}

fn validate_indentation(f: FileId, lines: &Vec<PLine>, diagnostics: &mut Vec<Diagnostic>)
    requires
        lines_fit(lines@),
    ensures
        appends(
            final(diagnostics)@,
            old(diagnostics)@,
            indent_errors(f, views(lines@), 0, seq![0int], None),
        ),
{
    let ghost ls = views(lines@);
    let ghost d0 = diagnostics@;
    let ghost mut errs: Seq<PErrV> = seq![];
    let mut stack: Vec<usize> = Vec::new();
    stack.push(0);
    proof {
        lemma_appends_refl(d0);
        assert(stack_ints(stack@) =~= seq![0int]);
    }
    let mut previous: Option<(usize, bool)> = None;
    let mut k: usize = 0;
    while k < lines.len()
        invariant
            k <= lines@.len(),
            ls == views(lines@),
            lines_fit(lines@),
            forall|i: int| 0 <= i < stack@.len() ==> #[trigger] stack@[i] + 2 <= usize::MAX,
            appends(diagnostics@, d0, errs),
            indent_errors(f, ls, 0, seq![0int], None) =~= errs + indent_errors(
                f,
                ls,
                k as int,
                stack_ints(stack@),
                prev_ints(previous),
            ),
        decreases lines@.len() - k,
    {
        let line = &lines[k];
        assert(ls[k as int] == line.view_line());
        let ghost dm = diagnostics@;
        let ghost st = indent_step(f, line.view_line(), stack_ints(stack@), prev_ints(previous));
        previous = indent_line(f, line, &mut stack, previous, diagnostics);
        proof {
            lemma_appends_trans(d0, dm, diagnostics@, errs, st.2);
            errs = errs + st.2;
        }
        k = k + 1;
    }
    proof {
        assert(errs + Seq::<PErrV>::empty() =~= errs);
    }
}

// ---------------------------------------------------------------------------
// Checks of one line
pub open spec fn opt_err(e: Option<PErrV>) -> Seq<PErrV> {
    match e {
        Some(x) => seq![x],
        None => seq![],
    }
}

/// The text that UTF-8 bytes encode.
pub open spec fn chars_of(b: Seq<u8>) -> Seq<char> {
    vstd::utf8::decode_utf8(b)
}

pub open spec fn is_name_byte(c: u8) -> bool {
    (0x30 <= c <= 0x39) || (0x41 <= c <= 0x5a) || (0x61 <= c <= 0x7a) || c == 0x2d || c == 0x5f
}

/// `@` followed by ASCII letters, digits, `-` and `_` only.
pub open spec fn valid_directive_name(n: Seq<u8>) -> bool {
    &&& n.len() > 0
    &&& n[0] == 0x40
    &&& forall|i: int| 1 <= i < n.len() ==> #[trigger] is_name_byte(n[i])
}

pub open spec fn bytes_of(s: &str) -> Seq<u8> {
    utf8(s@)
}

/// Whether `c[start..]`, split at `/` (and at `\` too when `backslash`), has a `..` segment.
pub open spec fn has_parent_segment(c: Seq<u8>, start: int, backslash: bool) -> bool
    decreases c.len() - start,
{
    if start < 0 || start > c.len() {
        false
    } else {
        let q = seg_end(c, start, backslash);
        if c.subrange(start, q) == seq![0x2eu8, 0x2eu8] {
            true
        } else if q >= c.len() {
            false
        } else {
            proof {
                lemma_seg_end(c, start, backslash);
            }
            has_parent_segment(c, q + 1, backslash)
        }
    }
}

pub open spec fn is_sep(x: u8, backslash: bool) -> bool {
    x == 0x2f || (backslash && x == 0x5c)
}

/// End of the segment that starts at `i`.
pub open spec fn seg_end(c: Seq<u8>, i: int, backslash: bool) -> int
    decreases c.len() - i,
{
    if i < 0 || i >= c.len() {
        c.len() as int
    } else if is_sep(c[i], backslash) {
        i
    } else {
        seg_end(c, i + 1, backslash)
    }
}

pub proof fn lemma_seg_end(c: Seq<u8>, i: int, backslash: bool)
    requires
        0 <= i <= c.len(),
    ensures
        i <= seg_end(c, i, backslash) <= c.len(),
    decreases c.len() - i,
{
    if i < c.len() && !is_sep(c[i], backslash) {
        lemma_seg_end(c, i + 1, backslash);
    }
}

/// A path that starts with `/` or `\\`, or has a drive letter's colon.
pub open spec fn looks_absolute(c: Seq<u8>) -> bool {
    ||| (c.len() > 0 && c[0] == 0x2f)
    ||| (c.len() > 1 && c[0] == 0x5c && c[1] == 0x5c)
    ||| (c.len() > 1 && c[1] == 0x3a)
}

/// Bounds of the value without one pair of matching quotes around it.
pub open spec fn unquoted(t: Seq<u8>, vs: int, ve: int) -> (int, int) {
    if ve - vs >= 2 && ((t[vs] == 0x22 && t[ve - 1] == 0x22) || (t[vs] == 0x27 && t[ve - 1]
        == 0x27)) {
        (vs + 1, ve - 1)
    } else {
        (vs, ve)
    }
}

/// The check of an import-like directive's value `t[vs..ve]` on line `l`.
pub open spec fn import_value_check(f: FileId, l: PLineV, name: Seq<u8>, vs: int, ve: int) -> Option<
    PErrV,
> {
    let t = l.3;
    let v = t.subrange(vs, ve);
    match crate::text::find_pat(t, 0, t.len() as int, v) {
        None => None,
        Some(off) => {
            let span = SourceSpan {
                file_id: f,
                start: (l.0 + off) as usize,
                end: (l.0 + off + v.len()) as usize,
            };
            let u = unquoted(t, vs, ve);
            let c = t.subrange(u.0, u.1);
            let nm = chars_of(name);
            if matches_at(c, 0, c.len() as int, seq![0x66u8, 0x69u8, 0x6cu8, 0x65u8, 0x3au8])
                || crate::text::find_pat(c, 0, c.len() as int, seq![0x3au8, 0x2fu8, 0x2fu8]) is Some {
                match crate::uri::parsed_url(chars_of(c)) {
                    None => None,
                    Some((_, scheme, path)) => if scheme != "file"@ {
                        Some(("L010"@, nm + " only allows relative paths or file: URIs"@, span))
                    } else if has_parent_segment(utf8(path), 0, false) {
                        Some(("L011"@, nm + " path must not contain parent traversal"@, span))
                    } else {
                        None
                    },
                }
            } else if looks_absolute(c) {
                Some(("L012"@, nm + " absolute paths are not allowed by default"@, span))
            } else if has_parent_segment(c, 0, true) {
                Some(("L013"@, nm + " path must stay within the workspace root"@, span))
            } else {
                None
            }
        },
    }
}

pub open spec fn at_luma() -> Seq<u8> {
    seq![0x40u8, 0x6cu8, 0x75u8, 0x6du8, 0x61u8]
}

pub open spec fn at_profile() -> Seq<u8> {
    seq![0x40u8, 0x70u8, 0x72u8, 0x6fu8, 0x66u8, 0x69u8, 0x6cu8, 0x65u8]
}

pub open spec fn at_schema() -> Seq<u8> {
    seq![0x40u8, 0x73u8, 0x63u8, 0x68u8, 0x65u8, 0x6du8, 0x61u8]
}

pub open spec fn at_use() -> Seq<u8> {
    seq![0x40u8, 0x75u8, 0x73u8, 0x65u8]
}

pub open spec fn at_lua() -> Seq<u8> {
    seq![0x40u8, 0x6cu8, 0x75u8, 0x61u8]
}

pub open spec fn at_meta() -> Seq<u8> {
    seq![0x40u8, 0x6du8, 0x65u8, 0x74u8, 0x61u8]
}

pub open spec fn at_import() -> Seq<u8> {
    seq![0x40u8, 0x69u8, 0x6du8, 0x70u8, 0x6fu8, 0x72u8, 0x74u8]
}

pub open spec fn at_include() -> Seq<u8> {
    seq![0x40u8, 0x69u8, 0x6eu8, 0x63u8, 0x6cu8, 0x75u8, 0x64u8, 0x65u8]
}

/// The check of a directive line: its name, then known directives and import targets.
pub open spec fn directive_check(f: FileId, l: PLineV) -> Option<PErrV> {
    let t = l.3;
    let n = t.len() as int;
    let s0 = crate::text::skip_ws(t, 0, n);
    let h = crate::formatting::first_ws(t, s0, n);
    let name = t.subrange(s0, h);
    let lead = run_of_blank(t, 0, n);
    let name_span = SourceSpan {
        file_id: f,
        start: (l.0 + lead) as usize,
        end: (l.0 + lead + name.len()) as usize,
    };
    let v = crate::parser::fallback::trim_in(t, h, n);
    if !(s0 < n && t[s0] == 0x40) {
        None
    } else if name.len() == 1 || !valid_directive_name(name) {
        Some(("L007"@, "malformed directive"@, name_span))
    } else if name == at_luma() || name == at_profile() || name == at_schema() || name == at_use()
        || name == at_lua() || name == at_meta() {
        None
    } else if name == at_import() || name == at_include() {
        if v.0 == v.1 {
            Some(
                (
                    "L008"@,
                    "directive requires a path or file: URI"@,
                    SourceSpan { file_id: f, start: l.0 as usize, end: (l.0 + n) as usize },
                ),
            )
        } else {
            import_value_check(f, l, name, v.0, v.1)
        }
    } else {
        Some(("L009"@, "unknown directive"@, name_span))
    }
}

/// The check for `let a as b = ...`: a binding that holds ` as `.
pub open spec fn let_alias_check(f: FileId, l: PLineV) -> Option<PErrV> {
    let t = l.3;
    let n = t.len() as int;
    let s0 = crate::text::skip_ws(t, 0, n);
    let r = s0 + 4;
    if !matches_at(t, s0, n, crate::parser::fallback::let_kw()) {
        None
    } else {
        match crate::text::find_byte(t, r, n, 0x3d) {
            None => None,
            Some(q) => {
                let bb = crate::parser::fallback::trim_in(t, r, q);
                let binding = t.subrange(bb.0, bb.1);
                if crate::text::find_pat(binding, 0, binding.len() as int, seq![0x20u8, 0x61u8, 0x73u8, 0x20u8]) is None {
                    None
                } else {
                    match crate::text::find_pat(t, 0, n, binding) {
                        None => None,
                        Some(off) => Some(
                            (
                                "L014"@,
                                "let aliases are not supported in parse-only mode"@,
                                SourceSpan {
                                    file_id: f,
                                    start: (l.0 + off) as usize,
                                    end: (l.0 + off + binding.len()) as usize,
                                },
                            ),
                        ),
                    }
                }
            },
        }
    }
}

/// Where the scalar of a line starts and the offset reported for it; it runs to the end.
pub open spec fn scalar_candidate(l: PLineV) -> Option<(int, int)> {
    let t = l.3;
    let n = t.len() as int;
    let s0 = crate::text::skip_ws(t, 0, n);
    let lead = run_of_blank(t, 0, n);
    if s0 < n && (t[s0] == 0x22 || t[s0] == 0x27) {
        Some((s0, lead))
    } else if matches_at(t, s0, n, crate::parser::fallback::let_kw()) {
        match crate::text::find_byte(t, 0, n, 0x3d) {
            None => None,
            Some(q) => {
                let vs = crate::text::skip_ws(t, q + 1, n);
                Some((vs, vs))
            },
        }
    } else if s0 < n && t[s0] == 0x40 {
        let h = crate::formatting::first_ws(t, s0, n);
        let vs = crate::text::skip_ws(t, h, n);
        match crate::text::find_pat(t, 0, n, t.subrange(vs, n)) {
            Some(off) => Some((vs, off)),
            None => Some((vs, lead + (h - s0))),
        }
    } else if crate::text::find_byte(t, 0, n, 0x3a) is Some {
        let c = crate::text::find_byte(t, 0, n, 0x3a)->0;
        let vs = crate::text::skip_ws(t, c + 1, n);
        Some((vs, vs))
    } else if s0 < n && t[s0] == 0x2d {
        let vs = crate::text::skip_ws(t, s0 + 1, n);
        match crate::text::find_pat(t, 0, n, t.subrange(vs, n)) {
            Some(off) => Some((vs, off)),
            None => None,
        }
    } else {
        None
    }
}

/// Whether the quote `q` closes the string in `t[i..n]`, a backslash escaping what follows.
pub open spec fn closes_string(t: Seq<u8>, i: int, n: int, q: u8, escaped: bool) -> bool
    decreases n - i,
{
    if i < 0 || i >= n || i >= t.len() {
        false
    } else if escaped {
        closes_string(t, i + 1, n, q, false)
    } else if t[i] == 0x5c {
        closes_string(t, i + 1, n, q, true)
    } else if t[i] == q {
        true
    } else {
        closes_string(t, i + 1, n, q, false)
    }
}

/// The check for a quoted scalar that its line does not close.
pub open spec fn string_check(f: FileId, l: PLineV) -> Option<PErrV> {
    let t = l.3;
    let n = t.len() as int;
    match scalar_candidate(l) {
        None => None,
        Some((vs, off)) => if vs >= n || !(t[vs] == 0x22 || t[vs] == 0x27) || closes_string(
            t,
            vs + 1,
            n,
            t[vs],
            false,
        ) {
            None
        } else {
            Some(
                (
                    "L015"@,
                    "unterminated string"@,
                    SourceSpan {
                        file_id: f,
                        start: (l.0 + off) as usize,
                        end: (l.0 + off + (n - vs)) as usize,
                    },
                ),
            )
        },
    }
}

/// A line from `j` on whose trimmed text is a closing fence.
pub open spec fn fence_after(ls: Seq<PLineV>, j: int) -> bool
    decreases ls.len() - j,
{
    if j < 0 || j >= ls.len() {
        false
    } else {
        let tb = trim_bounds(ls[j].3);
        if ls[j].3.subrange(tb.0, tb.1) == seq![0x60u8, 0x60u8, 0x60u8] {
            true
        } else {
            fence_after(ls, j + 1)
        }
    }
}

/// The check for a `lua{` block or a fenced Lua block that is never closed.
pub open spec fn block_check(f: FileId, ls: Seq<PLineV>, k: int) -> Option<PErrV> {
    let l = ls[k];
    let t = l.3;
    let n = t.len() as int;
    let tb = trim_bounds(t);
    let lua = crate::text::find_pat(t, 0, n, crate::parser::fallback::lua_brace());
    if lua is Some && crate::text::find_byte(t, lua->0 + 4, n, 0x7d) is None {
        Some(
            (
                "L016"@,
                "unterminated lua block"@,
                SourceSpan {
                    file_id: f,
                    start: (l.0 + lua->0) as usize,
                    end: (l.0 + lua->0 + 4) as usize,
                },
            ),
        )
    } else if matches_at(t, tb.0, tb.1, crate::parser::fallback::fence_lua()) && !fence_after(
        ls,
        k + 1,
    ) {
        Some(
            (
                "L017"@,
                "unterminated fenced lua block"@,
                SourceSpan { file_id: f, start: l.0 as usize, end: (l.0 + n) as usize },
            ),
        )
    } else {
        None
    }
}

/// The checks of line `k`, blank lines and comments aside.
pub open spec fn line_checks(f: FileId, ls: Seq<PLineV>, k: int) -> Seq<PErrV> {
    let t = ls[k].3;
    let tb = trim_bounds(t);
    if tb.0 == tb.1 || t[tb.0] == 0x23 {
        seq![]
    } else {
        opt_err(directive_check(f, ls[k])) + opt_err(let_alias_check(f, ls[k])) + opt_err(
            string_check(f, ls[k]),
        ) + opt_err(block_check(f, ls, k))
    }
}

pub open spec fn lines_checks(f: FileId, ls: Seq<PLineV>, k: int) -> Seq<PErrV>
    decreases ls.len() - k,
{
    if k < 0 || k >= ls.len() {
        seq![]
    } else {
        line_checks(f, ls, k) + lines_checks(f, ls, k + 1)
    }
}

/// Everything the validator finds in a text: NUL bytes, indentation, then each line.
pub open spec fn text_errors(f: FileId, b: Seq<u8>) -> Seq<PErrV> {
    let ls = parser_lines(b);
    nul_errors(f, b, 0) + indent_errors(f, ls, 0, seq![0int], None) + lines_checks(f, ls, 0)
}

proof fn lemma_no_closing_quote(t: Seq<u8>, i: int, n: int, q: u8, escaped: bool)
    requires
        forall|j: int| i <= j < n && 0 <= j < t.len() ==> t[j] != q,
    ensures
        !closes_string(t, i, n, q, escaped),
    decreases n - i,
{
    if !(i < 0 || i >= n || i >= t.len()) {
        lemma_no_closing_quote(t, i + 1, n, q, t[i] == 0x5c && !escaped);
    }
}

/// A line whose scalar value opens with a single or a double quote that no later byte of
/// the line repeats gets the "unterminated string" error L015.
pub proof fn law_unclosed_quote_is_reported(f: FileId, l: PLineV)
    requires
        scalar_candidate(l) is Some,
        scalar_candidate(l)->Some_0.0 < l.3.len(),
        l.3[scalar_candidate(l)->Some_0.0] == 0x27 || l.3[scalar_candidate(l)->Some_0.0] == 0x22,
        forall|j: int| scalar_candidate(l)->Some_0.0 < j < l.3.len() ==> #[trigger] l.3[j] != l.3[scalar_candidate(l)->Some_0.0],
    ensures
        string_check(f, l) is Some,
        string_check(f, l)->Some_0.0 == "L015"@,
        string_check(f, l)->Some_0.1 == "unterminated string"@,
{
    let vs = scalar_candidate(l)->Some_0.0;
    let t = l.3;
    lemma_no_closing_quote(t, vs + 1, t.len() as int, t[vs], false);
}

proof fn lemma_lines_checks_hold(f: FileId, ls: Seq<PLineV>, i: int, k: int)
    requires
        0 <= i <= k < ls.len(),
    ensures
        forall|e: PErrV| line_checks(f, ls, k).contains(e) ==> lines_checks(f, ls, i).contains(e),
    decreases k - i,
{
    if i < k {
        lemma_lines_checks_hold(f, ls, i + 1, k);
        assert forall|e: PErrV| line_checks(f, ls, k).contains(e) implies lines_checks(f, ls, i).contains(e) by {
            let x = lines_checks(f, ls, i + 1);
            let j = choose|j: int| 0 <= j < x.len() && x[j] == e;
            assert(lines_checks(f, ls, i)[line_checks(f, ls, i).len() + j] == e);
        }
    } else {
        assert forall|e: PErrV| line_checks(f, ls, k).contains(e) implies lines_checks(f, ls, i).contains(e) by {
            let j = choose|j: int| 0 <= j < line_checks(f, ls, k).len() && line_checks(f, ls, k)[j] == e;
            assert(lines_checks(f, ls, i)[j] == e);
        }
    }
}

/// Over a whole text: a line that is neither blank nor a comment and whose scalar value
/// opens with a quote that the rest of the line never repeats makes the validator report
/// an "unterminated string" (L015).
pub proof fn law_unclosed_quote_in_text(f: FileId, b: Seq<u8>, k: int)
    requires
        0 <= k < parser_lines(b).len(),
        ({
            let l = parser_lines(b)[k];
            let tb = trim_bounds(l.3);
            &&& tb.0 < tb.1
            &&& l.3[tb.0] != 0x23
            &&& scalar_candidate(l) is Some
            &&& scalar_candidate(l)->Some_0.0 < l.3.len()
            &&& (l.3[scalar_candidate(l)->Some_0.0] == 0x27 || l.3[scalar_candidate(l)->Some_0.0] == 0x22)
            &&& forall|j: int| scalar_candidate(l)->Some_0.0 < j < l.3.len() ==> #[trigger] l.3[j] != l.3[scalar_candidate(l)->Some_0.0]
        }),
    ensures
        exists|i: int|
            0 <= i < text_errors(f, b).len() && (#[trigger] text_errors(f, b)[i]).0 == "L015"@ && text_errors(f, b)[i].1
                == "unterminated string"@,
{
    let ls = parser_lines(b);
    law_unclosed_quote_is_reported(f, ls[k]);
    let e = string_check(f, ls[k])->Some_0;
    let a = opt_err(directive_check(f, ls[k])) + opt_err(let_alias_check(f, ls[k]));
    assert(line_checks(f, ls, k)[a.len() as int] == e);
    assert(line_checks(f, ls, k).contains(e));
    lemma_lines_checks_hold(f, ls, 0, k);
    let x = lines_checks(f, ls, 0);
    let j = choose|j: int| 0 <= j < x.len() && x[j] == e;
    let pre = nul_errors(f, b, 0) + indent_errors(f, ls, 0, seq![0int], None);
    assert(text_errors(f, b)[pre.len() + j] == e);
}

pub open spec fn opt_diag(r: Option<Diagnostic>, e: Option<PErrV>) -> bool {
    match e {
        None => r is None,
        Some(x) => r matches Some(d) && is_error_diagnostic(d, "lumals.validation"@, x.0, x.1, x.2),
    }
}

fn valid_directive_name_exec(t: &[u8], s: usize, h: usize) -> (r: bool)
    requires
        s <= h <= t@.len(),
    ensures
        r == valid_directive_name(t@.subrange(s as int, h as int)),
{
    let ghost nm = t@.subrange(s as int, h as int);
    if s == h || t[s] != 0x40 {
        return false;
    }
    let mut i = s + 1;
    while i < h
        invariant
            s < i <= h <= t@.len(),
            nm == t@.subrange(s as int, h as int),
            forall|k: int| 1 <= k < i - s ==> #[trigger] is_name_byte(nm[k]),
        decreases h - i,
    {
        let c = t[i];
        if !((0x30 <= c && c <= 0x39) || (0x41 <= c && c <= 0x5a) || (0x61 <= c && c <= 0x7a) || c
            == 0x2d || c == 0x5f) {
            assert(nm[i - s] == c);
            assert(!is_name_byte(nm[i - s]));
            return false;
        }
        i = i + 1;
    }
    true
}

fn has_parent_segment_exec(c: &[u8], backslash: bool) -> (r: bool)
    ensures
        r == has_parent_segment(c@, 0, backslash),
{
    let n = c.len();
    let mut start: usize = 0;
    loop
        invariant
            start <= n,
            n == c@.len(),
            has_parent_segment(c@, start as int, backslash) == has_parent_segment(c@, 0, backslash),
        decreases n - start,
    {
        let mut q = start;
        while q < n && !(c[q] == 0x2f || (backslash && c[q] == 0x5c))
            invariant
                start <= q <= n,
                n == c@.len(),
                seg_end(c@, q as int, backslash) == seg_end(c@, start as int, backslash),
            decreases n - q,
        {
            q = q + 1;
        }
        let ghost seg = c@.subrange(start as int, q as int);
        if q - start == 2 && c[start] == 0x2e && c[start + 1] == 0x2e {
            assert(seg =~= seq![0x2eu8, 0x2eu8]);
            return true;
        }
        proof {
            if seg == seq![0x2eu8, 0x2eu8] {
                assert(seg.len() == 2);
                assert(q - start == 2);
                assert(seg[0] == c@[start as int]);
                assert(seg[1] == c@[start + 1]);
            }
        }
        if q >= n {
            return false;
        }
        start = q + 1;
    }
}

fn looks_absolute_exec(c: &[u8]) -> (r: bool)
    ensures
        r == looks_absolute(c@),
{
    (c.len() > 0 && c[0] == 0x2f) || (c.len() > 1 && c[0] == 0x5c && c[1] == 0x5c) || (c.len() > 1
        && c[1] == 0x3a)
}

/// The value without one pair of matching quotes around it.
fn strip_matching_quotes(t: &[u8], vs: usize, ve: usize) -> (r: (usize, usize))
    requires
        vs <= ve <= t@.len(),
    ensures
        (r.0 as int, r.1 as int) == unquoted(t@, vs as int, ve as int),
{
    if ve - vs >= 2 && ((t[vs] == 0x22 && t[ve - 1] == 0x22) || (t[vs] == 0x27 && t[ve - 1] == 0x27)) {
        (vs + 1, ve - 1)
    } else {
        (vs, ve)
    }
}

/// A string holding the text of valid UTF-8 bytes, as characters.
proof fn lemma_chars_of_string(s: Seq<char>)
    ensures
        chars_of(utf8(s)) == s,
{
    vstd::utf8::encode_utf8_decode_utf8(s);
}

fn import_value_check_exec(f: FileId, line: &PLine, name: &str, vs: usize, ve: usize) -> (r: Option<
    Diagnostic,
>)
    requires
        pline_ok(line.view_line()),
        line.start + line.text@.len() + 2 <= usize::MAX,
        vs <= ve <= line.text@.len(),
        char_boundary(line.text@, vs as int),
        char_boundary(line.text@, ve as int),
    ensures
        opt_diag(r, import_value_check(f, line.view_line(), utf8(name@), vs as int, ve as int)),
{
    let t = line.text.as_slice();
    let n = t.len();
    let mut value: Vec<u8> = Vec::new();
    crate::text::push_range(&mut value, t, vs, ve);
    proof {
        assert(value@ =~= t@.subrange(vs as int, ve as int));
        crate::text::lemma_find_pat_bounds(t@, 0, n as int, value@);
        lemma_chars_of_string(name@);
    }
    let off = match crate::text::find_pat_exec(t, 0, n, value.as_slice()) {
        None => {
            return None;
        },
        Some(off) => off,
    };
    let span = SourceSpan::new(f, line.start + off, line.start + off + (ve - vs));
    let (cs, ce) = strip_matching_quotes(t, vs, ve);
    proof {
        if cs != vs {
            crate::text::lemma_boundary_after_ascii(t@, vs as int);
            assert(t@[ce as int] == t@[ve - 1]);
        }
    }
    let mut cand: Vec<u8> = Vec::new();
    crate::text::push_range(&mut cand, t, cs, ce);
    proof {
        assert(cand@ =~= t@.subrange(cs as int, ce as int));
    }
    let file_pat: [u8; 5] = [0x66, 0x69, 0x6c, 0x65, 0x3a];
    let sep_pat: [u8; 3] = [0x3a, 0x2f, 0x2f];
    proof {
        assert(file_pat@ =~= seq![0x66u8, 0x69u8, 0x6cu8, 0x65u8, 0x3au8]);
        assert(sep_pat@ =~= seq![0x3au8, 0x2fu8, 0x2fu8]);
    }
    if matches_at_exec(cand.as_slice(), 0, cand.len(), file_pat.as_slice())
        || crate::text::find_pat_exec(cand.as_slice(), 0, cand.len(), sep_pat.as_slice()).is_some() {
        proof {
            crate::text::lemma_piece_valid(t@, cs as int, ce as int);
        }
        let text = crate::text::bytes_to_string(cand);
        proof {
            lemma_chars_of_string(text@);
        }
        match crate::uri::parse_url_parts(text.as_str()) {
            None => None,
            Some((_, scheme, path)) => {
                if !crate::text::str_eq(scheme.as_str(), "file") {
                    let msg = crate::text::concat2(name, " only allows relative paths or file: URIs");
                    Some(validation_error("L010", msg.as_str(), span))
                } else if has_parent_segment_exec(path.as_str().as_bytes(), false) {
                    let msg = crate::text::concat2(name, " path must not contain parent traversal");
                    Some(validation_error("L011", msg.as_str(), span))
                } else {
                    None
                }
            },
        }
    } else if looks_absolute_exec(cand.as_slice()) {
        let msg = crate::text::concat2(name, " absolute paths are not allowed by default");
        Some(validation_error("L012", msg.as_str(), span))
    } else if has_parent_segment_exec(cand.as_slice(), true) {
        let msg = crate::text::concat2(name, " path must stay within the workspace root");
        Some(validation_error("L013", msg.as_str(), span))
    } else {
        None
    }
}

/// Leading spaces and tabs are white space: their run ends no later than the trimmed start.
proof fn lemma_blank_within_ws(b: Seq<u8>, lo: int, hi: int)
    requires
        0 <= lo <= hi <= b.len(),
    ensures
        lo + run_of_blank(b, lo, hi) <= crate::text::skip_ws(b, lo, hi),
    decreases hi - lo,
{
    crate::text::lemma_skip_ws_bounds(b, lo, hi);
    if lo < hi && (b[lo] == 0x20 || b[lo] == 0x09) {
        lemma_blank_within_ws(b, lo + 1, hi);
    }
}

fn directive_check_exec(f: FileId, line: &PLine) -> (r: Option<Diagnostic>)
    requires
        pline_ok(line.view_line()),
        line.start + line.text@.len() + 2 <= usize::MAX,
    ensures
        opt_diag(r, directive_check(f, line.view_line())),
{
    let t = line.text.as_slice();
    let n = t.len();
    let s0 = crate::text::trim_start_at(t, 0, n);
    proof {
        crate::text::lemma_skip_ws_boundary(t@, 0, n as int);
        lemma_blank_within_ws(t@, 0, n as int);
    }
    let h = crate::formatting::first_ws_exec(t, s0, n);
    let lead = count_blank_run(t, 0, n);
    if !(s0 < n && t[s0] == 0x40) {
        return None;
    }
    proof {
        crate::formatting::lemma_first_ws_boundary(t@, s0 as int, n as int);
    }
    let name_span = SourceSpan::new(f, line.start + lead, line.start + lead + (h - s0));
    if h - s0 == 1 || !valid_directive_name_exec(t, s0, h) {
        return Some(validation_error("L007", "malformed directive", name_span));
    }
    let luma: [u8; 5] = [0x40, 0x6c, 0x75, 0x6d, 0x61];
    let profile: [u8; 8] = [0x40, 0x70, 0x72, 0x6f, 0x66, 0x69, 0x6c, 0x65];
    let schema: [u8; 7] = [0x40, 0x73, 0x63, 0x68, 0x65, 0x6d, 0x61];
    let use_: [u8; 4] = [0x40, 0x75, 0x73, 0x65];
    let lua: [u8; 4] = [0x40, 0x6c, 0x75, 0x61];
    let meta: [u8; 5] = [0x40, 0x6d, 0x65, 0x74, 0x61];
    let import: [u8; 7] = [0x40, 0x69, 0x6d, 0x70, 0x6f, 0x72, 0x74];
    let incl: [u8; 8] = [0x40, 0x69, 0x6e, 0x63, 0x6c, 0x75, 0x64, 0x65];
    proof {
        assert(luma@ =~= at_luma());
        assert(profile@ =~= at_profile());
        assert(schema@ =~= at_schema());
        assert(use_@ =~= at_use());
        assert(lua@ =~= at_lua());
        assert(meta@ =~= at_meta());
        assert(import@ =~= at_import());
        assert(incl@ =~= at_include());
    }
    if piece_eq(t, s0, h, luma.as_slice()) || piece_eq(t, s0, h, profile.as_slice()) || piece_eq(
        t,
        s0,
        h,
        schema.as_slice(),
    ) || piece_eq(t, s0, h, use_.as_slice()) || piece_eq(t, s0, h, lua.as_slice()) || piece_eq(
        t,
        s0,
        h,
        meta.as_slice(),
    ) {
        return None;
    }
    if piece_eq(t, s0, h, import.as_slice()) || piece_eq(t, s0, h, incl.as_slice()) {
        let (vs, ve) = crate::formatting::trimmed_piece(t, h, n);
        if vs == ve {
            return Some(
                validation_error(
                    "L008",
                    "directive requires a path or file: URI",
                    SourceSpan::new(f, line.start, line.start + n),
                ),
            );
        }
        let name = crate::text::substring(t, s0, h);
        return import_value_check_exec(f, line, name.as_str(), vs, ve);
    }
    Some(validation_error("L009", "unknown directive", name_span))
}

fn let_alias_check_exec(f: FileId, line: &PLine) -> (r: Option<Diagnostic>)
    requires
        pline_ok(line.view_line()),
        line.start + line.text@.len() + 2 <= usize::MAX,
    ensures
        opt_diag(r, let_alias_check(f, line.view_line())),
{
    let t = line.text.as_slice();
    let n = t.len();
    let kw: [u8; 4] = [0x6c, 0x65, 0x74, 0x20];
    let as_pat: [u8; 4] = [0x20, 0x61, 0x73, 0x20];
    proof {
        assert(kw@ =~= crate::parser::fallback::let_kw());
        assert(as_pat@ =~= seq![0x20u8, 0x61u8, 0x73u8, 0x20u8]);
        crate::text::lemma_skip_ws_boundary(t@, 0, n as int);
        crate::text::lemma_skip_ws_bounds(t@, 0, n as int);
    }
    let s0 = crate::text::trim_start_at(t, 0, n);
    if !matches_at_exec(t, s0, n, kw.as_slice()) {
        return None;
    }
    let r = s0 + 4;
    proof {
        assert(t@.subrange(s0 as int, s0 + 4)[3] == t@[s0 + 3]);
        crate::text::lemma_boundary_after_ascii(t@, s0 + 3);
        crate::text::lemma_find_byte_bounds(t@, r as int, n as int, 0x3d);
    }
    let q = match crate::text::find_byte_exec(t, r, n, 0x3d) {
        None => {
            return None;
        },
        Some(q) => q,
    };
    let (bs, be) = crate::formatting::trimmed_piece(t, r, q);
    let mut binding: Vec<u8> = Vec::new();
    crate::text::push_range(&mut binding, t, bs, be);
    proof {
        assert(binding@ =~= t@.subrange(bs as int, be as int));
        crate::text::lemma_find_pat_bounds(t@, 0, n as int, binding@);
    }
    if crate::text::find_pat_exec(binding.as_slice(), 0, binding.len(), as_pat.as_slice()).is_none() {
        return None;
    }
    match crate::text::find_pat_exec(t, 0, n, binding.as_slice()) {
        None => None,
        Some(off) => Some(
            validation_error(
                "L014",
                "let aliases are not supported in parse-only mode",
                SourceSpan::new(f, line.start + off, line.start + off + (be - bs)),
            ),
        ),
    }
}

fn closes_string_exec(t: &[u8], i: usize, q: u8) -> (r: bool)
    requires
        i <= t@.len(),
    ensures
        r == closes_string(t@, i as int, t@.len() as int, q, false),
{
    let n = t.len();
    let mut j = i;
    let mut escaped = false;
    while j < n
        invariant
            i <= j <= n,
            n == t@.len(),
            closes_string(t@, j as int, n as int, q, escaped) == closes_string(
                t@,
                i as int,
                n as int,
                q,
                false,
            ),
        decreases n - j,
    {
        if escaped {
            escaped = false;
        } else if t[j] == 0x5c {
            escaped = true;
        } else if t[j] == q {
            return true;
        }
        j = j + 1;
    }
    false
}

fn scalar_candidate_exec(line: &PLine) -> (r: Option<(usize, usize)>)
    requires
        pline_ok(line.view_line()),
        line.start + line.text@.len() + 2 <= usize::MAX,
    ensures
        match scalar_candidate(line.view_line()) {
            None => r is None,
            Some((vs, off)) => r matches Some(x) && x.0 as int == vs && x.1 as int == off,
        },
        r matches Some(x) ==> x.0 <= line.text@.len() && x.1 + (line.text@.len() - x.0)
            <= line.text@.len(),
{
    let t = line.text.as_slice();
    let n = t.len();
    let kw: [u8; 4] = [0x6c, 0x65, 0x74, 0x20];
    proof {
        assert(kw@ =~= crate::parser::fallback::let_kw());
        crate::text::lemma_skip_ws_bounds(t@, 0, n as int);
        lemma_blank_within_ws(t@, 0, n as int);
    }
    let s0 = crate::text::trim_start_at(t, 0, n);
    let lead = count_blank_run(t, 0, n);
    if s0 < n && (t[s0] == 0x22 || t[s0] == 0x27) {
        return Some((s0, lead));
    }
    if matches_at_exec(t, s0, n, kw.as_slice()) {
        proof {
            crate::text::lemma_find_byte_bounds(t@, 0, n as int, 0x3d);
        }
        return match crate::text::find_byte_exec(t, 0, n, 0x3d) {
            None => None,
            Some(q) => {
                let vs = crate::text::trim_start_at(t, q + 1, n);
                Some((vs, vs))
            },
        };
    }
    if s0 < n && t[s0] == 0x40 {
        let h = crate::formatting::first_ws_exec(t, s0, n);
        let vs = crate::text::trim_start_at(t, h, n);
        let mut rest: Vec<u8> = Vec::new();
        crate::text::push_range(&mut rest, t, vs, n);
        proof {
            assert(rest@ =~= t@.subrange(vs as int, n as int));
            crate::text::lemma_find_pat_bounds(t@, 0, n as int, rest@);
        }
        return match crate::text::find_pat_exec(t, 0, n, rest.as_slice()) {
            Some(off) => Some((vs, off)),
            None => Some((vs, lead + (h - s0))),
        };
    }
    proof {
        crate::text::lemma_find_byte_bounds(t@, 0, n as int, 0x3a);
    }
    if let Some(c) = crate::text::find_byte_exec(t, 0, n, 0x3a) {
        let vs = crate::text::trim_start_at(t, c + 1, n);
        return Some((vs, vs));
    }
    if s0 < n && t[s0] == 0x2d {
        let vs = crate::text::trim_start_at(t, s0 + 1, n);
        let mut rest: Vec<u8> = Vec::new();
        crate::text::push_range(&mut rest, t, vs, n);
        proof {
            assert(rest@ =~= t@.subrange(vs as int, n as int));
            crate::text::lemma_find_pat_bounds(t@, 0, n as int, rest@);
        }
        return match crate::text::find_pat_exec(t, 0, n, rest.as_slice()) {
            Some(off) => Some((vs, off)),
            None => None,
        };
    }
    None
}

fn string_check_exec(f: FileId, line: &PLine) -> (r: Option<Diagnostic>)
    requires
        pline_ok(line.view_line()),
        line.start + line.text@.len() + 2 <= usize::MAX,
    ensures
        opt_diag(r, string_check(f, line.view_line())),
{
    let t = line.text.as_slice();
    let n = t.len();
    match scalar_candidate_exec(line) {
        None => None,
        Some((vs, off)) => {
            if vs >= n || !(t[vs] == 0x22 || t[vs] == 0x27) || closes_string_exec(t, vs + 1, t[vs]) {
                None
            } else {
                Some(
                    validation_error(
                        "L015",
                        "unterminated string",
                        SourceSpan::new(f, line.start + off, line.start + off + (n - vs)),
                    ),
                )
            }
        },
    }
}

fn fence_after_exec(lines: &Vec<PLine>, j: usize) -> (r: bool)
    requires
        j <= lines@.len(),
        lines_fit(lines@),
    ensures
        r == fence_after(views(lines@), j as int),
{
    let ghost ls = views(lines@);
    let fence: [u8; 3] = [0x60, 0x60, 0x60];
    proof {
        assert(fence@ =~= seq![0x60u8, 0x60u8, 0x60u8]);
    }
    let mut k = j;
    while k < lines.len()
        invariant
            j <= k <= lines@.len(),
            ls == views(lines@),
            lines_fit(lines@),
            fence@ == seq![0x60u8, 0x60u8, 0x60u8],
            fence_after(ls, k as int) == fence_after(ls, j as int),
        decreases lines@.len() - k,
    {
        let t = lines[k].text.as_slice();
        assert(ls[k as int] == lines@[k as int].view_line());
        let (s, e) = trim_bounds_exec(t);
        if piece_eq(t, s, e, fence.as_slice()) {
            return true;
        }
        k = k + 1;
    }
    false
}

fn block_check_exec(f: FileId, lines: &Vec<PLine>, k: usize) -> (r: Option<Diagnostic>)
    requires
        k < lines@.len(),
        lines_fit(lines@),
    ensures
        opt_diag(r, block_check(f, views(lines@), k as int)),
{
    let ghost ls = views(lines@);
    let nl = lines.len();
    let line = &lines[k];
    assert(ls[k as int] == line.view_line());
    let t = line.text.as_slice();
    let n = t.len();
    let (s, e) = trim_bounds_exec(t);
    let lua: [u8; 4] = [0x6c, 0x75, 0x61, 0x7b];
    let fence: [u8; 6] = [0x60, 0x60, 0x60, 0x6c, 0x75, 0x61];
    proof {
        assert(lua@ =~= crate::parser::fallback::lua_brace());
        assert(fence@ =~= crate::parser::fallback::fence_lua());
        crate::text::lemma_find_pat_bounds(t@, 0, n as int, lua@);
    }
    if let Some(p) = crate::text::find_pat_exec(t, 0, n, lua.as_slice()) {
        if crate::text::find_byte_exec(t, p + 4, n, 0x7d).is_none() {
            return Some(
                validation_error(
                    "L016",
                    "unterminated lua block",
                    SourceSpan::new(f, line.start + p, line.start + p + 4),
                ),
            );
        }
    }
    if matches_at_exec(t, s, e, fence.as_slice()) && !fence_after_exec(lines, k + 1) {
        return Some(
            validation_error(
                "L017",
                "unterminated fenced lua block",
                SourceSpan::new(f, line.start, line.start + n),
            ),
        );
    }
    None
}

fn push_opt(diagnostics: &mut Vec<Diagnostic>, d: Option<Diagnostic>, Ghost(e): Ghost<Option<PErrV>>)
    requires
        opt_diag(d, e),
    ensures
        appends(final(diagnostics)@, old(diagnostics)@, opt_err(e)),
{
    let ghost before = diagnostics@;
    match d {
        Some(d) => {
            diagnostics.push(d);
            proof {
                assert(diagnostics@.subrange(0, before.len() as int) =~= before);
                let nd = diagnostics@.subrange(before.len() as int, diagnostics@.len() as int);
                assert(nd[0] == diagnostics@.last());
            }
        },
        None => {
            proof {
                lemma_appends_refl(before);
            }
        },
    }
}

fn check_line(f: FileId, lines: &Vec<PLine>, k: usize, diagnostics: &mut Vec<Diagnostic>)
    requires
        k < lines@.len(),
        lines_fit(lines@),
    ensures
        appends(final(diagnostics)@, old(diagnostics)@, line_checks(f, views(lines@), k as int)),
{
    let ghost ls = views(lines@);
    let ghost d0 = diagnostics@;
    let line = &lines[k];
    assert(ls[k as int] == line.view_line());
    let t = line.text.as_slice();
    let (s, e) = trim_bounds_exec(t);
    if s == e || t[s] == 0x23 {
        proof {
            lemma_appends_refl(d0);
        }
        return;
    }
    let ghost l = line.view_line();
    push_opt(diagnostics, directive_check_exec(f, line), Ghost(directive_check(f, l)));
    let ghost d1 = diagnostics@;
    push_opt(diagnostics, let_alias_check_exec(f, line), Ghost(let_alias_check(f, l)));
    let ghost d2 = diagnostics@;
    push_opt(diagnostics, string_check_exec(f, line), Ghost(string_check(f, l)));
    let ghost d3 = diagnostics@;
    push_opt(diagnostics, block_check_exec(f, lines, k), Ghost(block_check(f, ls, k as int)));
    proof {
        let e1 = opt_err(directive_check(f, l));
        let e2 = opt_err(let_alias_check(f, l));
        let e3 = opt_err(string_check(f, l));
        let e4 = opt_err(block_check(f, ls, k as int));
        lemma_appends_trans(d0, d1, d2, e1, e2);
        lemma_appends_trans(d0, d2, d3, e1 + e2, e3);
        lemma_appends_trans(d0, d3, diagnostics@, e1 + e2 + e3, e4);
    }
}

/// What the validator finds in a source text, in order: NUL bytes, indentation, then the
/// checks of each line.
fn validate_text(source: &SourceText) -> (diagnostics: Vec<Diagnostic>)
    requires
        source.bytes().len() + 2 <= usize::MAX,
    ensures
        errors_match(diagnostics@, "lumals.validation"@, text_errors(source.file_id, source.bytes())),
{
    let f = source.file_id;
    let ghost b = source.bytes();
    let mut diagnostics: Vec<Diagnostic> = Vec::new();
    let ghost d0 = diagnostics@;
    let bytes = source.as_str().as_bytes();
    proof {
        lemma_str_valid(source.text@);
    }
    let lines = lines_with_offsets(bytes);
    let ghost ls = views(lines@);
    proof {
        assert(ls =~= parser_lines(b));
        assert forall|k: int| 0 <= k < lines@.len() implies pline_ok(
            #[trigger] lines@[k].view_line(),
        ) && lines@[k].start + lines@[k].text@.len() + 2 <= usize::MAX by {
            assert(lines@[k].end <= b.len());
        }
    }
    validate_nul_bytes(source, &mut diagnostics);
    let ghost d1 = diagnostics@;
    validate_indentation(f, &lines, &mut diagnostics);
    let ghost d2 = diagnostics@;
    proof {
        lemma_appends_trans(d0, d1, d2, nul_errors(f, b, 0), indent_errors(f, ls, 0, seq![0int], None));
    }
    let ghost mut errs = nul_errors(f, b, 0) + indent_errors(f, ls, 0, seq![0int], None);
    let mut k: usize = 0;
    while k < lines.len()
        invariant
            k <= lines@.len(),
            ls == views(lines@),
            ls =~= parser_lines(b),
            lines_fit(lines@),
            appends(diagnostics@, d0, errs),
            text_errors(f, b) =~= errs + lines_checks(f, ls, k as int),
        decreases lines@.len() - k,
    {
        let ghost dm = diagnostics@;
        check_line(f, &lines, k, &mut diagnostics);
        proof {
            lemma_appends_trans(d0, dm, diagnostics@, errs, line_checks(f, ls, k as int));
            errs = errs + line_checks(f, ls, k as int);
        }
        k = k + 1;
    }
    proof {
        assert(errs + Seq::<PErrV>::empty() =~= errs);
        assert(diagnostics@.subrange(0, 0) =~= Seq::<Diagnostic>::empty());
        assert(diagnostics@.subrange(0, diagnostics@.len() as int) =~= diagnostics@);
    }
    diagnostics
}

// ---------------------------------------------------------------------------
// Findings on the syntax tree: duplicate mapping keys
/// Index of the last entry before `j` whose key is `key`.
pub open spec fn last_with_key(es: Seq<EntryV>, key: Seq<u8>, j: int) -> Option<int>
    decreases j,
{
    if j <= 0 {
        None
    } else if es[j - 1].key == key {
        Some(j - 1)
    } else {
        last_with_key(es, key, j - 1)
    }
}

pub proof fn lemma_last_with_key(es: Seq<EntryV>, key: Seq<u8>, j: int)
    ensures
        last_with_key(es, key, j) matches Some(x) ==> 0 <= x < j,
    decreases j,
{
    if j > 0 && es[j - 1].key != key {
        lemma_last_with_key(es, key, j - 1);
    }
}

/// A repeated key: its bytes, its span, the span of the entry before it with that key, and
/// the line of the repetition.
pub type DupV = (Seq<u8>, SourceSpan, SourceSpan, int);

/// One-based line of an offset, clamped to the end of the text.
pub open spec fn line_of_offset(b: Seq<u8>, offset: int) -> int {
    let c = if offset <= b.len() {
        offset
    } else {
        b.len() as int
    };
    crate::position::newlines_before(b, c) + 1
}

/// Repeated keys among the first `i` entries.
pub open spec fn entry_dups(b: Seq<u8>, es: Seq<EntryV>, i: int) -> Seq<DupV>
    decreases i,
{
    if i <= 0 {
        seq![]
    } else {
        entry_dups(b, es, i - 1) + match last_with_key(es, es[i - 1].key, i - 1) {
            Some(j) => seq![
                (
                    es[i - 1].key,
                    es[i - 1].key_span,
                    es[j].key_span,
                    line_of_offset(b, es[i - 1].key_span.start as int),
                ),
            ],
            None => seq![],
        }
    }
}

pub open spec fn node_dups(b: Seq<u8>, n: NodeV) -> Seq<DupV> {
    match n {
        NodeV::Mapping { entries, .. } => entry_dups(b, entries, entries.len() as int),
        _ => seq![],
    }
}

pub open spec fn item_dups(b: Seq<u8>, i: DocItemV) -> Seq<DupV> {
    match i {
        DocItemV::Node(n) => node_dups(b, n),
        _ => seq![],
    }
}

pub open spec fn items_dups(b: Seq<u8>, items: Seq<DocItemV>, k: int) -> Seq<DupV>
    decreases k,
{
    if k <= 0 {
        seq![]
    } else {
        items_dups(b, items, k - 1) + item_dups(b, items[k - 1])
    }
}

pub open spec fn docs_dups(b: Seq<u8>, docs: Seq<DocV>, k: int) -> Seq<DupV>
    decreases k,
{
    if k <= 0 {
        seq![]
    } else {
        docs_dups(b, docs, k - 1) + items_dups(b, docs[k - 1].items, docs[k - 1].items.len() as int)
    }
}

/// The warning for a repeated key.
pub open spec fn is_dup_diag(d: Diagnostic, x: DupV) -> bool {
    let key = chars_of(x.0);
    &&& d.code@ == "L002"@
    &&& d.severity == DiagnosticSeverity::Warning
    &&& d.source@ == "lumals.validation"@
    &&& d.message@ == "duplicate mapping key '"@ + key + "'"@
    &&& d.primary_span == Some(x.1)
    &&& d.related_spans@.len() == 1
    &&& d.related_spans@[0].span == x.2
    &&& d.related_spans@[0].message@ == "first definition here"@
    &&& d.tags@ == seq![DiagnosticTag::Unnecessary]
    &&& d.notes@.len() == 1
    &&& d.notes@[0]@ == "line "@ + chars_of(crate::parser::fallback::decimal(x.3 as nat))
        + " shadows the earlier '"@ + key + "' entry"@
}

pub open spec fn dups_appended(new: Seq<Diagnostic>, old: Seq<Diagnostic>, xs: Seq<DupV>) -> bool {
    &&& new.len() == old.len() + xs.len()
    &&& new.subrange(0, old.len() as int) == old
    &&& forall|k: int| 0 <= k < xs.len() ==> is_dup_diag(#[trigger] new[old.len() + k], xs[k])
}

proof fn lemma_dups_trans(
    a: Seq<Diagnostic>,
    b: Seq<Diagnostic>,
    c: Seq<Diagnostic>,
    x1: Seq<DupV>,
    x2: Seq<DupV>,
)
    requires
        dups_appended(b, a, x1),
        dups_appended(c, b, x2),
    ensures
        dups_appended(c, a, x1 + x2),
{
    assert(c.subrange(0, a.len() as int) =~= a) by {
        assert forall|k: int| 0 <= k < a.len() implies c.subrange(0, a.len() as int)[k] == a[k] by {
            assert(c.subrange(0, b.len() as int)[k] == b[k]);
            assert(b.subrange(0, a.len() as int)[k] == a[k]);
        }
    }
    assert forall|k: int| 0 <= k < (x1 + x2).len() implies is_dup_diag(
        #[trigger] c[a.len() + k],
        (x1 + x2)[k],
    ) by {
        if k < x1.len() {
            assert(c.subrange(0, b.len() as int)[a.len() + k] == b[a.len() + k]);
            assert(is_dup_diag(b[a.len() + k], x1[k]));
        } else {
            assert(is_dup_diag(c[b.len() + (k - x1.len())], x2[k - x1.len()]));
        }
    }
}

proof fn lemma_dups_refl(a: Seq<Diagnostic>)
    ensures
        dups_appended(a, a, seq![]),
{
    assert(a.subrange(0, a.len() as int) =~= a);
}

fn duplicate_key_diagnostic(source: &SourceText, key: &String, key_span: SourceSpan, first: SourceSpan) -> (d:
    Diagnostic)
    requires
        source.wf(),
        source.bytes().len() < usize::MAX,
    ensures
        is_dup_diag(
            d,
            (utf8(key@), key_span, first, line_of_offset(source.bytes(), key_span.start as int)),
        ),
{
    let message = crate::text::concat3("duplicate mapping key '", key.as_str(), "'");
    let mut d = Diagnostic::new("L002", DiagnosticSeverity::Warning, message.as_str()).with_source(
        "lumals.validation",
    );
    d.primary_span = Some(key_span);
    d.related_spans.push(
        RelatedDiagnosticSpan { span: first, message: "first definition here".to_owned() },
    );
    d.tags.push(DiagnosticTag::Unnecessary);
    let line = source.position(key_span.start).line;
    let mut digits: Vec<u8> = Vec::new();
    crate::parser::fallback::push_decimal(&mut digits, line);
    proof {
        crate::parser::fallback::lemma_decimal_ascii(line as nat);
        assert(digits@ =~= crate::parser::fallback::decimal(line as nat));
    }
    let number = crate::text::ascii_string(digits);
    let head = crate::text::concat3("line ", number.as_str(), " shadows the earlier '");
    let note = crate::text::concat3(head.as_str(), key.as_str(), "' entry");
    d.notes.push(note);
    proof {
        lemma_chars_of_string(key@);
        lemma_chars_of_string(number@);
        assert(d.tags@ =~= seq![DiagnosticTag::Unnecessary]);
        let x = (utf8(key@), key_span, first, line_of_offset(source.bytes(), key_span.start as int));
        let c = if key_span.start <= source.bytes().len() {
            key_span.start as int
        } else {
            source.bytes().len() as int
        };
        crate::position::lemma_newlines_bounds(source.bytes(), c);
        assert(line as int == x.3);
        assert(d.message@ == "duplicate mapping key '"@ + chars_of(x.0) + "'"@);
        assert(d.notes@[0]@ == "line "@ + chars_of(crate::parser::fallback::decimal(x.3 as nat))
            + " shadows the earlier '"@ + chars_of(x.0) + "' entry"@);
    }
    d
}

fn last_with_key_exec(entries: &Vec<MappingEntry>, i: usize) -> (r: Option<usize>)
    requires
        i < entries@.len(),
    ensures
        ({
            let es = entries@.map_values(|e: MappingEntry| e.view_entry());
            match last_with_key(es, es[i as int].key, i as int) {
                None => r is None,
                Some(j) => r == Some(j as usize),
            }
        }),
        r matches Some(j) ==> j < i,
{
    proof {
        lemma_last_with_key(
            entries@.map_values(|e: MappingEntry| e.view_entry()),
            entries@.map_values(|e: MappingEntry| e.view_entry())[i as int].key,
            i as int,
        );
    }
    let ghost es = entries@.map_values(|e: MappingEntry| e.view_entry());
    let key = entries[i].key.as_str();
    assert(es[i as int] == entries@[i as int].view_entry());
    let mut j = i;
    while j > 0
        invariant
            j <= i < entries@.len(),
            es == entries@.map_values(|e: MappingEntry| e.view_entry()),
            es[i as int].key == utf8(key@),
            last_with_key(es, es[i as int].key, i as int) == last_with_key(
                es,
                es[i as int].key,
                j as int,
            ),
        decreases j,
    {
        assert(es[j - 1] == entries@[j - 1].view_entry());
        if crate::text::str_eq(entries[j - 1].key.as_str(), key) {
            return Some(j - 1);
        }
        proof {
            if es[j - 1].key == es[i as int].key {
                crate::text::lemma_utf8_injective(entries@[j - 1].key@, key@);
            }
        }
        j = j - 1;
    }
    None
}

fn validate_duplicate_keys(source: &SourceText, mapping: &Mapping, diagnostics: &mut Vec<Diagnostic>)
    requires
        source.wf(),
        source.bytes().len() < usize::MAX,
    ensures
        dups_appended(
            final(diagnostics)@,
            old(diagnostics)@,
            entry_dups(
                source.bytes(),
                mapping.entries@.map_values(|e: MappingEntry| e.view_entry()),
                mapping.entries@.len() as int,
            ),
        ),
{
    let ghost es = mapping.entries@.map_values(|e: MappingEntry| e.view_entry());
    let ghost b = source.bytes();
    let ghost d0 = diagnostics@;
    proof {
        lemma_dups_refl(d0);
    }
    let mut i: usize = 0;
    while i < mapping.entries.len()
        invariant
            i <= mapping.entries@.len(),
            es == mapping.entries@.map_values(|e: MappingEntry| e.view_entry()),
            source.wf(),
            source.bytes().len() < usize::MAX,
            b == source.bytes(),
            dups_appended(diagnostics@, d0, entry_dups(b, es, i as int)),
        decreases mapping.entries@.len() - i,
    {
        let entry = &mapping.entries[i];
        assert(es[i as int] == entry.view_entry());
        let found = last_with_key_exec(&mapping.entries, i);
        let ghost dm = diagnostics@;
        match found {
            Some(k) => {
                assert(es[k as int] == mapping.entries@[k as int].view_entry());
                let d = duplicate_key_diagnostic(
                    source,
                    &entry.key,
                    entry.key_span,
                    mapping.entries[k].key_span,
                );
                diagnostics.push(d);
                proof {
                    let x = seq![
                        (
                            es[i as int].key,
                            es[i as int].key_span,
                            es[k as int].key_span,
                            line_of_offset(b, es[i as int].key_span.start as int),
                        ),
                    ];
                    assert(diagnostics@.subrange(0, dm.len() as int) =~= dm);
                    assert(dups_appended(diagnostics@, dm, x));
                    lemma_dups_trans(d0, dm, diagnostics@, entry_dups(b, es, i as int), x);
                    lemma_last_with_key(es, es[i as int].key, i as int);
                    assert(last_with_key(es, es[i as int].key, i as int) == Some(k as int));
                    assert(entry_dups(b, es, i + 1) =~= entry_dups(b, es, i as int) + x);
                }
            },
            None => {
                proof {
                    assert(entry_dups(b, es, i + 1) =~= entry_dups(b, es, i as int));
                }
            },
        }
        i = i + 1;
    }
}

fn collect_node_diagnostics(source: &SourceText, node: &Node, diagnostics: &mut Vec<Diagnostic>)
    requires
        source.wf(),
        source.bytes().len() < usize::MAX,
        node.nested_leaves(),
    ensures
        dups_appended(final(diagnostics)@, old(diagnostics)@, node_dups(source.bytes(), node.view_node())),
    decreases node,
{
    let ghost d0 = diagnostics@;
    match node {
        Node::Mapping(mapping) => {
            validate_duplicate_keys(source, mapping, diagnostics);
            let ghost d1 = diagnostics@;
            let mut i: usize = 0;
            while i < mapping.entries.len()
                invariant
                    node.nested_leaves(),
                    *node == Node::Mapping(*mapping),
                    source.wf(),
                    source.bytes().len() < usize::MAX,
                    i <= mapping.entries@.len(),
                    diagnostics@ == d1,
                decreases mapping.entries@.len() - i,
            {
                assert(opt_is_leaf(mapping.entries@[i as int].value));
                if let Some(value) = &mapping.entries[i].value {
                    collect_node_diagnostics(source, value, diagnostics);
                    proof {
                        assert(node_dups(source.bytes(), value.view_node()) =~= Seq::<DupV>::empty());
                        assert(diagnostics@.subrange(0, d1.len() as int) == d1);
                        assert(diagnostics@ =~= d1);
                    }
                }
                i = i + 1;
            }
        },
        Node::Sequence(sequence) => {
            proof {
                lemma_dups_refl(d0);
            }
            let mut i: usize = 0;
            while i < sequence.items.len()
                invariant
                    node.nested_leaves(),
                    *node == Node::Sequence(*sequence),
                    source.wf(),
                    source.bytes().len() < usize::MAX,
                    i <= sequence.items@.len(),
                    diagnostics@ == d0,
                decreases sequence.items@.len() - i,
            {
                assert(opt_is_leaf(sequence.items@[i as int].value));
                if let Some(value) = &sequence.items[i].value {
                    collect_node_diagnostics(source, value, diagnostics);
                    proof {
                        assert(diagnostics@.subrange(0, d0.len() as int) == d0);
                        assert(diagnostics@ =~= d0);
                    }
                }
                i = i + 1;
            }
        },
        Node::Tag(tag) => {
            proof {
                lemma_dups_refl(d0);
            }
            if let Some(value) = &tag.value {
                collect_node_diagnostics(source, value, diagnostics);
                proof {
                    assert(diagnostics@.subrange(0, d0.len() as int) == d0);
                    assert(diagnostics@ =~= d0);
                }
            }
        },
        _ => {
            proof {
                lemma_dups_refl(d0);
            }
        },
    }
}

/// The warnings about the syntax tree: repeated keys of each mapping, document by document.
fn validate_ast(source: &SourceText, file: &AstFile) -> (diagnostics: Vec<Diagnostic>)
    requires
        source.wf(),
        source.bytes().len() < usize::MAX,
        forall|i: int|
            0 <= i < file.documents@.len() ==> (#[trigger] file.documents@[i]).nodes_nested_leaves(),
    ensures
        dups_appended(
            diagnostics@,
            seq![],
            docs_dups(
                source.bytes(),
                file.documents@.map_values(|d: Document| d.view_doc()),
                file.documents@.len() as int,
            ),
        ),
{
    let ghost docs = file.documents@.map_values(|d: Document| d.view_doc());
    let ghost b = source.bytes();
    let mut diagnostics: Vec<Diagnostic> = Vec::new();
    proof {
        lemma_dups_refl(diagnostics@);
    }
    let mut k: usize = 0;
    while k < file.documents.len()
        invariant
            k <= file.documents@.len(),
            docs == file.documents@.map_values(|d: Document| d.view_doc()),
            b == source.bytes(),
            source.wf(),
            source.bytes().len() < usize::MAX,
            forall|i: int|
                0 <= i < file.documents@.len() ==> (#[trigger] file.documents@[i]).nodes_nested_leaves(),
            dups_appended(diagnostics@, seq![], docs_dups(b, docs, k as int)),
        decreases file.documents@.len() - k,
    {
        let document = &file.documents[k];
        assert(docs[k as int] == document.view_doc());
        let ghost items = document.items@.map_values(|i: DocumentItem| i.view_item());
        let ghost dk = diagnostics@;
        proof {
            lemma_dups_refl(dk);
        }
        let mut j: usize = 0;
        while j < document.items.len()
            invariant
                j <= document.items@.len(),
                document.nodes_nested_leaves(),
                items == document.items@.map_values(|i: DocumentItem| i.view_item()),
                source.wf(),
                source.bytes().len() < usize::MAX,
                b == source.bytes(),
                dups_appended(diagnostics@, dk, items_dups(b, items, j as int)),
            decreases document.items@.len() - j,
        {
            let ghost dm = diagnostics@;
            assert(items[j as int] == document.items@[j as int].view_item());
            match &document.items[j] {
                DocumentItem::Node(node) => {
                    assert(document.items@[j as int] matches DocumentItem::Node(n)
                        ==> n.nested_leaves());
                    collect_node_diagnostics(source, node, &mut diagnostics);
                    proof {
                        lemma_dups_trans(dk, dm, diagnostics@, items_dups(b, items, j as int), node_dups(b, node.view_node()));
                    }
                },
                _ => {
                    proof {
                        assert(items_dups(b, items, j + 1) =~= items_dups(b, items, j as int));
                    }
                },
            }
            j = j + 1;
        }
        proof {
            lemma_dups_trans(seq![], dk, diagnostics@, docs_dups(b, docs, k as int), items_dups(b, items, items.len() as int));
        }
        k = k + 1;
    }
    diagnostics
}

// ---------------------------------------------------------------------------
// Describing spans
/// Byte width of the UTF-8 character that the leading byte `c` starts.
pub open spec fn char_width(c: u8) -> int {
    if c < 0x80 {
        1
    } else if c < 0xe0 {
        2
    } else if c < 0xf0 {
        3
    } else {
        4
    }
}

/// Start of the last character that begins before `offset`.
pub open spec fn prev_boundary(b: Seq<u8>, offset: int) -> int
    decreases offset,
{
    if offset <= 0 {
        0
    } else if !vstd::utf8::is_continuation_byte(b[offset - 1]) {
        offset - 1
    } else {
        prev_boundary(b, offset - 1)
    }
}

/// A span that covers at least one character where it can: an empty span grows over the
/// character after it, or before it at the end of the text; `None` for a span of another
/// file, an inverted span, or one past the end.
pub open spec fn stable_span_spec(b: Seq<u8>, file_id: FileId, span: SourceSpan) -> Option<SourceSpan> {
    if span.file_id != file_id || span.start > span.end || span.end > b.len() {
        None
    } else if span.start < span.end {
        Some(span)
    } else if span.start < b.len() {
        Some(
            SourceSpan {
                file_id: span.file_id,
                start: span.start,
                end: (span.start + char_width(b[span.start as int])) as usize,
            },
        )
    } else if span.start > 0 {
        Some(
            SourceSpan {
                file_id: span.file_id,
                start: prev_boundary(b, span.start as int) as usize,
                end: span.start,
            },
        )
    } else {
        Some(span)
    }
}

proof fn lemma_prev_boundary(b: Seq<u8>, offset: int)
    requires
        0 < offset <= b.len(),
    ensures
        0 <= prev_boundary(b, offset) < offset,
    decreases offset,
{
    assert(prev_boundary(b, 0) == 0);
    if offset > 1 && vstd::utf8::is_continuation_byte(b[offset - 1]) {
        lemma_prev_boundary(b, offset - 1);
    }
}

/// The end of the character that starts at `offset`.
fn next_char_boundary(b: &[u8], offset: usize) -> (r: Option<usize>)
    requires
        vstd::utf8::valid_utf8(b@),
        char_boundary(b@, offset as int),
    ensures
        offset >= b@.len() ==> r is None,
        offset < b@.len() ==> r == Some((offset + char_width(b@[offset as int])) as usize),
        r matches Some(e) ==> offset < e <= b@.len(),
{
    if offset >= b.len() {
        return None;
    }
    let c = b[offset];
    let w: usize = if c < 0x80 {
        1
    } else if c < 0xe0 {
        2
    } else if c < 0xf0 {
        3
    } else {
        4
    };
    proof {
        crate::text::lemma_char_boundary(b@, offset as int);
        lemma_char_width_fits(b@, offset as int);
    }
    Some(offset + w)
}

/// A character that starts at a boundary of valid UTF-8 fits in the text.
proof fn lemma_char_width_fits(b: Seq<u8>, i: int)
    requires
        vstd::utf8::valid_utf8(b),
        0 <= i < b.len(),
        vstd::utf8::is_char_boundary(b, i),
    ensures
        i + char_width(b[i]) <= b.len(),
{
    vstd::utf8::valid_utf8_split(b, i);
    let rest = b.subrange(i, b.len() as int);
    assert(rest[0] == b[i]);
    assert(vstd::utf8::valid_utf8(rest));
    crate::text::lemma_first_char_width(rest);
}

/// The start of the last character before `offset`.
fn prev_char_boundary(b: &[u8], offset: usize) -> (r: Option<usize>)
    requires
        offset <= b@.len(),
    ensures
        offset == 0 ==> r is None,
        offset > 0 ==> r == Some(prev_boundary(b@, offset as int) as usize),
{
    if offset == 0 {
        return None;
    }
    proof {
        lemma_prev_boundary(b@, offset as int);
    }
    let mut i = offset;
    while i > 0 && b[i - 1] >= 0x80 && b[i - 1] <= 0xbf
        invariant
            0 <= i <= offset <= b@.len(),
            prev_boundary(b@, i as int) == prev_boundary(b@, offset as int),
        decreases i,
    {
        i = i - 1;
    }
    if i == 0 {
        Some(0)
    } else {
        Some(i - 1)
    }
}

pub(crate) fn stable_span(source: &SourceText, span: SourceSpan) -> (r: Option<SourceSpan>)
    requires
        span.start == span.end && span.end <= source.bytes().len() ==> char_boundary(
            source.bytes(),
            span.start as int,
        ),
    ensures
        r == stable_span_spec(source.bytes(), source.file_id, span),
{
    let b = source.as_str().as_bytes();
    proof {
        lemma_str_valid(source.text@);
    }
    if span.file_id != source.file_id || span.start > span.end || span.end > b.len() {
        return None;
    }
    if !span.is_empty() {
        return Some(span);
    }
    if let Some(end) = next_char_boundary(b, span.start) {
        if end > span.start {
            return Some(SourceSpan::new(span.file_id, span.start, end));
        }
    }
    if let Some(start) = prev_char_boundary(b, span.start) {
        proof {
            if span.start > 0 {
                lemma_prev_boundary(b@, span.start as int);
            }
        }
        if start < span.start {
            return Some(SourceSpan::new(span.file_id, start, span.start));
        }
    }
    Some(span)
}

/// `line:column` of where a span starts, once made to cover a character.
pub open spec fn describe_span_spec(b: Seq<u8>, file_id: FileId, span: SourceSpan) -> Option<Seq<u8>> {
    match stable_span_spec(b, file_id, span) {
        None => None,
        Some(stable) => {
            let c = if stable.start <= b.len() {
                stable.start as int
            } else {
                b.len() as int
            };
            let line = crate::position::newlines_before(b, c) + 1;
            let column = c - crate::position::line_start_of(b, c) + 1;
            Some(
                crate::parser::fallback::decimal(line as nat) + seq![0x3au8]
                    + crate::parser::fallback::decimal(column as nat),
            )
        },
    }
}

/// Where a span starts, as `line:column` with one-based numbers.
pub fn describe_span(source: &SourceText, span: SourceSpan) -> (r: Option<String>)
    requires
        source.wf(),
        source.bytes().len() < usize::MAX,
        span.start == span.end && span.end <= source.bytes().len() ==> char_boundary(
            source.bytes(),
            span.start as int,
        ),
    ensures
        match describe_span_spec(source.bytes(), source.file_id, span) {
            None => r is None,
            Some(text) => r matches Some(s) && utf8(s@) == text,
        },
{
    let stable = match stable_span(source, span) {
        None => {
            return None;
        },
        Some(x) => x,
    };
    let position = source.position(stable.start);
    let ghost b = source.bytes();
    proof {
        let c = if stable.start <= b.len() {
            stable.start as int
        } else {
            b.len() as int
        };
        crate::position::lemma_newlines_bounds(b, c);
    }
    let mut digits: Vec<u8> = Vec::new();
    crate::parser::fallback::push_decimal(&mut digits, position.line);
    digits.push(0x3a);
    crate::parser::fallback::push_decimal(&mut digits, position.column);
    proof {
        crate::parser::fallback::lemma_decimal_ascii(position.line as nat);
        crate::parser::fallback::lemma_decimal_ascii(position.column as nat);
        let d1 = crate::parser::fallback::decimal(position.line as nat);
        let d2 = crate::parser::fallback::decimal(position.column as nat);
        assert(digits@ =~= d1 + seq![0x3au8] + d2);
        assert forall|i: int| 0 <= i < digits@.len() implies #[trigger] crate::text::is_ascii_byte(
            digits@[i],
        ) by {
            if i < d1.len() {
                assert(digits@[i] == d1[i]);
            } else if i > d1.len() {
                assert(digits@[i] == d2[i - d1.len() - 1]);
            }
        }
    }
    Some(crate::text::ascii_string(digits))
}

// ---------------------------------------------------------------------------
// All diagnostics of a document
/// A diagnostic as values: code, severity, source, message, span, related spans, tags, notes.
pub type DiagV = (
    Seq<char>,
    DiagnosticSeverity,
    Seq<char>,
    Seq<char>,
    Option<SourceSpan>,
    Seq<(SourceSpan, Seq<char>)>,
    Seq<DiagnosticTag>,
    Seq<Seq<char>>,
);

pub open spec fn diag_view(d: Diagnostic) -> DiagV {
    (
        d.code@,
        d.severity,
        d.source@,
        d.message@,
        d.primary_span,
        d.related_spans@.map_values(|r: RelatedDiagnosticSpan| (r.span, r.message@)),
        d.tags@,
        d.notes@.map_values(|n: String| n@),
    )
}

pub open spec fn diag_views(ds: Seq<Diagnostic>) -> Seq<DiagV> {
    ds.map_values(|d: Diagnostic| diag_view(d))
}

/// An error with no related spans, tags or notes.
pub open spec fn err_view(source: Seq<char>, e: PErrV) -> DiagV {
    (e.0, DiagnosticSeverity::Error, source, e.1, Some(e.2), seq![], seq![], seq![])
}

pub open spec fn dup_view(x: DupV) -> DiagV {
    let key = chars_of(x.0);
    (
        "L002"@,
        DiagnosticSeverity::Warning,
        "lumals.validation"@,
        "duplicate mapping key '"@ + key + "'"@,
        Some(x.1),
        seq![(x.2, "first definition here"@)],
        seq![DiagnosticTag::Unnecessary],
        seq![
            "line "@ + chars_of(crate::parser::fallback::decimal(x.3 as nat))
                + " shadows the earlier '"@ + key + "' entry"@,
        ],
    )
}

pub(crate) proof fn lemma_errors_views(ds: Seq<Diagnostic>, source: Seq<char>, es: Seq<PErrV>)
    requires
        errors_match(ds, source, es),
    ensures
        diag_views(ds) == es.map_values(|e: PErrV| err_view(source, e)),
{
    assert forall|k: int| 0 <= k < ds.len() implies diag_views(ds)[k] == es.map_values(
        |e: PErrV| err_view(source, e),
    )[k] by {
        let d = ds[k];
        assert(is_error_diagnostic(d, source, es[k].0, es[k].1, es[k].2));
        assert(d.related_spans@.map_values(|r: RelatedDiagnosticSpan| (r.span, r.message@))
            =~= Seq::<(SourceSpan, Seq<char>)>::empty());
        assert(d.tags@ =~= Seq::<DiagnosticTag>::empty());
        assert(d.notes@.map_values(|n: String| n@) =~= Seq::<Seq<char>>::empty());
    }
    assert(diag_views(ds) =~= es.map_values(|e: PErrV| err_view(source, e)));
}

proof fn lemma_dups_views(ds: Seq<Diagnostic>, xs: Seq<DupV>)
    requires
        dups_appended(ds, seq![], xs),
    ensures
        diag_views(ds) == xs.map_values(|x: DupV| dup_view(x)),
{
    assert forall|k: int| 0 <= k < ds.len() implies diag_views(ds)[k] == xs.map_values(
        |x: DupV| dup_view(x),
    )[k] by {
        let d = ds[k];
        assert(is_dup_diag(ds[0 + k], xs[k]));
        assert(d.related_spans@.map_values(|r: RelatedDiagnosticSpan| (r.span, r.message@))
            =~= seq![(xs[k].2, "first definition here"@)]);
        assert(d.notes@.map_values(|n: String| n@) =~= seq![d.notes@[0]@]);
    }
    assert(diag_views(ds) =~= xs.map_values(|x: DupV| dup_view(x)));
}

/// Byte-wise lexicographic order, as `str` compares.
pub open spec fn bytes_lt(a: Seq<u8>, b: Seq<u8>, i: int) -> bool
    decreases a.len() - i,
{
    if i < 0 || i >= a.len() {
        i >= 0 && i < b.len()
    } else if i >= b.len() {
        false
    } else if a[i] != b[i] {
        a[i] < b[i]
    } else {
        bytes_lt(a, b, i + 1)
    }
}

/// The sort key of a diagnostic: span start, span end, code, message.
pub open spec fn sort_key(d: DiagV) -> (int, int, Seq<u8>, Seq<u8>) {
    let span = match d.4 {
        Some(x) => x,
        None => SourceSpan { file_id: FileId(0), start: 0, end: 0 },
    };
    (span.start as int, span.end as int, utf8(d.0), utf8(d.3))
}

pub open spec fn key_lt(a: (int, int, Seq<u8>, Seq<u8>), b: (int, int, Seq<u8>, Seq<u8>)) -> bool {
    ||| a.0 < b.0
    ||| (a.0 == b.0 && a.1 < b.1)
    ||| (a.0 == b.0 && a.1 == b.1 && bytes_lt(a.2, b.2, 0))
    ||| (a.0 == b.0 && a.1 == b.1 && a.2 == b.2 && bytes_lt(a.3, b.3, 0))
}

/// Where a stable sort puts `d` among the sorted `s`: before the first greater key.
pub open spec fn insert_at(s: Seq<DiagV>, d: DiagV, p: int) -> int
    decreases s.len() - p,
{
    if p < 0 || p >= s.len() {
        s.len() as int
    } else if key_lt(sort_key(d), sort_key(s[p])) {
        p
    } else {
        insert_at(s, d, p + 1)
    }
}

/// The diagnostics ordered by their keys, equal keys kept in their order.
pub open spec fn sorted_diags(s: Seq<DiagV>) -> Seq<DiagV>
    decreases s.len(),
{
    if s.len() == 0 {
        seq![]
    } else {
        let r = sorted_diags(s.drop_last());
        r.insert(insert_at(r, s.last(), 0), s.last())
    }
}

/// The diagnostics without consecutive repetitions.
pub open spec fn dedup_diags(s: Seq<DiagV>) -> Seq<DiagV>
    decreases s.len(),
{
    if s.len() == 0 {
        seq![]
    } else {
        let r = dedup_diags(s.drop_last());
        if r.len() > 0 && r.last() == s.last() {
            r
        } else {
            r.push(s.last())
        }
    }
}

fn clone_diagnostic(d: &Diagnostic) -> (r: Diagnostic)
    ensures
        diag_view(r) == diag_view(*d),
{
    let mut related_spans: Vec<RelatedDiagnosticSpan> = Vec::new();
    let mut i: usize = 0;
    while i < d.related_spans.len()
        invariant
            i <= d.related_spans@.len(),
            related_spans@.map_values(|r: RelatedDiagnosticSpan| (r.span, r.message@))
                =~= d.related_spans@.subrange(0, i as int).map_values(
                |r: RelatedDiagnosticSpan| (r.span, r.message@),
            ),
        decreases d.related_spans@.len() - i,
    {
        let r = &d.related_spans[i];
        let ghost before = related_spans@;
        let copy = RelatedDiagnosticSpan { span: r.span, message: r.message.clone() };
        related_spans.push(copy);
        proof {
            assert(related_spans@.map_values(|r: RelatedDiagnosticSpan| (r.span, r.message@))
                =~= before.map_values(|r: RelatedDiagnosticSpan| (r.span, r.message@)).push(
                (copy.span, copy.message@),
            ));
            assert(d.related_spans@.subrange(0, i + 1) =~= d.related_spans@.subrange(0, i as int).push(
                d.related_spans@[i as int],
            ));
        }
        i = i + 1;
    }
    let mut tags: Vec<DiagnosticTag> = Vec::new();
    let mut j: usize = 0;
    while j < d.tags.len()
        invariant
            j <= d.tags@.len(),
            tags@ =~= d.tags@.subrange(0, j as int),
        decreases d.tags@.len() - j,
    {
        tags.push(d.tags[j]);
        j = j + 1;
    }
    let mut notes: Vec<String> = Vec::new();
    let mut k: usize = 0;
    while k < d.notes.len()
        invariant
            k <= d.notes@.len(),
            notes@.map_values(|n: String| n@) =~= d.notes@.subrange(0, k as int).map_values(
                |n: String| n@,
            ),
        decreases d.notes@.len() - k,
    {
        let ghost before = notes@;
        let note = d.notes[k].clone();
        notes.push(note);
        proof {
            assert(notes@.map_values(|n: String| n@) =~= before.map_values(|n: String| n@).push(
                note@,
            ));
            assert(d.notes@.subrange(0, k + 1) =~= d.notes@.subrange(0, k as int).push(
                d.notes@[k as int],
            ));
        }
        k = k + 1;
    }
    proof {
        assert(d.related_spans@.subrange(0, d.related_spans@.len() as int) =~= d.related_spans@);
        assert(d.tags@.subrange(0, d.tags@.len() as int) =~= d.tags@);
        assert(d.notes@.subrange(0, d.notes@.len() as int) =~= d.notes@);
    }
    Diagnostic {
        code: d.code.clone(),
        severity: d.severity,
        source: d.source.clone(),
        message: d.message.clone(),
        primary_span: d.primary_span,
        related_spans,
        tags,
        notes,
    }
}

fn tag_eq(a: DiagnosticTag, b: DiagnosticTag) -> (r: bool)
    ensures
        r == (a == b),
{
    match (a, b) {
        (DiagnosticTag::Deprecated, DiagnosticTag::Deprecated) => true,
        (DiagnosticTag::Unnecessary, DiagnosticTag::Unnecessary) => true,
        _ => false,
    }
}

fn severity_eq(a: DiagnosticSeverity, b: DiagnosticSeverity) -> (r: bool)
    ensures
        r == (a == b),
{
    match (a, b) {
        (DiagnosticSeverity::Info, DiagnosticSeverity::Info) => true,
        (DiagnosticSeverity::Warning, DiagnosticSeverity::Warning) => true,
        (DiagnosticSeverity::Error, DiagnosticSeverity::Error) => true,
        _ => false,
    }
}

fn span_opt_eq(a: Option<SourceSpan>, b: Option<SourceSpan>) -> (r: bool)
    ensures
        r == (a == b),
{
    match (a, b) {
        (Some(x), Some(y)) => x.file_id.0 == y.file_id.0 && x.start == y.start && x.end == y.end,
        (None, None) => true,
        _ => false,
    }
}

/// Whether two diagnostics are equal in every field.
fn diag_eq(a: &Diagnostic, b: &Diagnostic) -> (r: bool)
    ensures
        r == (diag_view(*a) == diag_view(*b)),
{
    if !crate::text::str_eq(a.code.as_str(), b.code.as_str()) || !severity_eq(a.severity, b.severity)
        || !crate::text::str_eq(a.source.as_str(), b.source.as_str()) || !crate::text::str_eq(
        a.message.as_str(),
        b.message.as_str(),
    ) || !span_opt_eq(a.primary_span, b.primary_span) {
        return false;
    }
    let ghost ra = a.related_spans@.map_values(|r: RelatedDiagnosticSpan| (r.span, r.message@));
    let ghost rb = b.related_spans@.map_values(|r: RelatedDiagnosticSpan| (r.span, r.message@));
    if a.related_spans.len() != b.related_spans.len() {
        assert(ra.len() != rb.len());
        return false;
    }
    let mut i: usize = 0;
    while i < a.related_spans.len()
        invariant
            i <= a.related_spans@.len() == b.related_spans@.len(),
            ra == a.related_spans@.map_values(|r: RelatedDiagnosticSpan| (r.span, r.message@)),
            rb == b.related_spans@.map_values(|r: RelatedDiagnosticSpan| (r.span, r.message@)),
            forall|m: int| 0 <= m < i ==> ra[m] == rb[m],
        decreases a.related_spans@.len() - i,
    {
        let x = &a.related_spans[i];
        let y = &b.related_spans[i];
        if !span_opt_eq(Some(x.span), Some(y.span)) || !crate::text::str_eq(
            x.message.as_str(),
            y.message.as_str(),
        ) {
            assert(ra[i as int] != rb[i as int]);
            return false;
        }
        i = i + 1;
    }
    assert(ra =~= rb);
    if a.tags.len() != b.tags.len() {
        return false;
    }
    let mut j: usize = 0;
    while j < a.tags.len()
        invariant
            j <= a.tags@.len() == b.tags@.len(),
            forall|m: int| 0 <= m < j ==> a.tags@[m] == b.tags@[m],
        decreases a.tags@.len() - j,
    {
        if !tag_eq(a.tags[j], b.tags[j]) {
            return false;
        }
        j = j + 1;
    }
    assert(a.tags@ =~= b.tags@);
    let ghost na = a.notes@.map_values(|n: String| n@);
    let ghost nb = b.notes@.map_values(|n: String| n@);
    if a.notes.len() != b.notes.len() {
        assert(na.len() != nb.len());
        return false;
    }
    let mut k: usize = 0;
    while k < a.notes.len()
        invariant
            k <= a.notes@.len() == b.notes@.len(),
            na == a.notes@.map_values(|n: String| n@),
            nb == b.notes@.map_values(|n: String| n@),
            forall|m: int| 0 <= m < k ==> na[m] == nb[m],
        decreases a.notes@.len() - k,
    {
        if !crate::text::str_eq(a.notes[k].as_str(), b.notes[k].as_str()) {
            assert(na[k as int] != nb[k as int]);
            return false;
        }
        k = k + 1;
    }
    assert(na =~= nb);
    true
}

pub(crate) fn bytes_lt_exec(a: &[u8], b: &[u8]) -> (r: bool)
    ensures
        r == bytes_lt(a@, b@, 0),
{
    let mut i: usize = 0;
    while i < a.len() && i < b.len() && a[i] == b[i]
        invariant
            i <= a@.len(),
            i <= b@.len(),
            bytes_lt(a@, b@, i as int) == bytes_lt(a@, b@, 0),
        decreases a@.len() - i,
    {
        i = i + 1;
    }
    if i >= a.len() {
        i < b.len()
    } else if i >= b.len() {
        false
    } else {
        a[i] < b[i]
    }
}

fn key_lt_exec(a: &Diagnostic, b: &Diagnostic) -> (r: bool)
    ensures
        r == key_lt(sort_key(diag_view(*a)), sort_key(diag_view(*b))),
{
    let sa = match a.primary_span {
        Some(x) => x,
        None => SourceSpan::new(FileId(0), 0, 0),
    };
    let sb = match b.primary_span {
        Some(x) => x,
        None => SourceSpan::new(FileId(0), 0, 0),
    };
    let ca = a.code.as_str().as_bytes();
    let cb = b.code.as_str().as_bytes();
    let ma = a.message.as_str().as_bytes();
    let mb = b.message.as_str().as_bytes();
    sa.start < sb.start || (sa.start == sb.start && sa.end < sb.end) || (sa.start == sb.start
        && sa.end == sb.end && bytes_lt_exec(ca, cb)) || (sa.start == sb.start && sa.end == sb.end
        && crate::text::bytes_eq(ca, cb) && bytes_lt_exec(ma, mb))
}

/// Every diagnostic of a parsed document: the parser's, the validator's on the text and on
/// the syntax tree, ordered by span, code and message, with repetitions removed.
pub fn collect(parsed: &ParsedDocument) -> (diagnostics: Vec<Diagnostic>)
    requires
        parsed.source.wf(),
        parsed.source.bytes().len() + 2 <= usize::MAX,
        match parsed.file {
            ParsedFile::Fallback(ff) => forall|i: int|
                0 <= i < ff.ast.documents@.len() ==> (#[trigger] ff.ast.documents@[i]).nodes_nested_leaves(),
        },
    ensures
        ({
            let b = parsed.source.bytes();
            let f = parsed.source.file_id;
            let ast_part = match parsed.file {
                ParsedFile::Fallback(ff) => docs_dups(
                    b,
                    ff.ast.documents@.map_values(|d: Document| d.view_doc()),
                    ff.ast.documents@.len() as int,
                ),
            };
            diag_views(diagnostics@) == dedup_diags(
                sorted_diags(
                    diag_views(parsed.diagnostics@) + text_errors(f, b).map_values(
                        |e: PErrV| err_view("lumals.validation"@, e),
                    ) + ast_part.map_values(|x: DupV| dup_view(x)),
                ),
            )
        }),
{
    let mut all: Vec<Diagnostic> = Vec::new();
    let mut i: usize = 0;
    while i < parsed.diagnostics.len()
        invariant
            i <= parsed.diagnostics@.len(),
            diag_views(all@) =~= diag_views(parsed.diagnostics@.subrange(0, i as int)),
        decreases parsed.diagnostics@.len() - i,
    {
        let d = clone_diagnostic(&parsed.diagnostics[i]);
        let ghost before = all@;
        all.push(d);
        proof {
            assert(diag_views(all@) =~= diag_views(before).push(diag_view(d)));
            assert(parsed.diagnostics@.subrange(0, i + 1) =~= parsed.diagnostics@.subrange(
                0,
                i as int,
            ).push(parsed.diagnostics@[i as int]));
        }
        i = i + 1;
    }
    proof {
        assert(parsed.diagnostics@.subrange(0, parsed.diagnostics@.len() as int)
            =~= parsed.diagnostics@);
    }
    let mut text_part = validate_text(&parsed.source);
    proof {
        lemma_errors_views(text_part@, "lumals.validation"@, text_errors(parsed.source.file_id, parsed.source.bytes()));
    }
    let ghost v1 = diag_views(all@);
    let ghost v2 = diag_views(text_part@);
    all.append(&mut text_part);
    proof {
        assert(diag_views(all@) =~= v1 + v2);
    }
    let mut ast_part = match &parsed.file {
        ParsedFile::Fallback(file) => validate_ast(&parsed.source, &file.ast),
    };
    proof {
        match &parsed.file {
            ParsedFile::Fallback(ff) => {
                lemma_dups_views(ast_part@, docs_dups(
                    parsed.source.bytes(),
                    ff.ast.documents@.map_values(|d: Document| d.view_doc()),
                    ff.ast.documents@.len() as int,
                ));
            },
        }
    }
    let ghost v3 = diag_views(all@);
    let ghost v4 = diag_views(ast_part@);
    all.append(&mut ast_part);
    proof {
        assert(diag_views(all@) =~= v3 + v4);
    }
    let ghost input = diag_views(all@);
    let sorted = sort_diagnostics(all);
    dedup_diagnostics(sorted)
}

/// A stable sort of the diagnostics by span, code and message.
fn sort_diagnostics(all: Vec<Diagnostic>) -> (sorted: Vec<Diagnostic>)
    ensures
        diag_views(sorted@) == sorted_diags(diag_views(all@)),
{
    let mut rest = all;
    let ghost input = diag_views(rest@);
    let mut sorted: Vec<Diagnostic> = Vec::new();
    let mut done: usize = 0;
    let total = rest.len();
    while rest.len() > 0
        invariant
            done + rest@.len() == total,
            total == input.len(),
            diag_views(rest@) =~= input.subrange(done as int, total as int),
            diag_views(sorted@) =~= sorted_diags(input.subrange(0, done as int)),
        decreases rest@.len(),
    {
        let ghost rest_before = rest@;
        let d = rest.remove(0);
        let ghost dv = diag_view(d);
        let ghost prev = diag_views(sorted@);
        proof {
            assert(diag_views(rest@) =~= diag_views(rest_before).subrange(1, rest_before.len() as int));
        }
        let mut p: usize = 0;
        while p < sorted.len() && !key_lt_exec(&d, &sorted[p])
            invariant
                p <= sorted@.len(),
                prev == diag_views(sorted@),
                dv == diag_view(d),
                insert_at(prev, dv, p as int) == insert_at(prev, dv, 0),
            decreases sorted@.len() - p,
        {
            p = p + 1;
        }
        sorted.insert(p, d);
        proof {
            assert(input.subrange(done as int, total as int)[0] == dv);
            assert(input.subrange(0, done + 1).drop_last() =~= input.subrange(0, done as int));
            assert(input.subrange(0, done + 1).last() == dv);
            assert(diag_views(sorted@) =~= prev.insert(p as int, dv));
            assert(diag_views(rest@) =~= input.subrange(done + 1, total as int));
        }
        done = done + 1;
    }
    proof {
        assert(input.subrange(0, total as int) =~= input);
    }
    sorted
}

/// The diagnostics without consecutive repetitions.
fn dedup_diagnostics(all: Vec<Diagnostic>) -> (out: Vec<Diagnostic>)
    ensures
        diag_views(out@) == dedup_diags(diag_views(all@)),
{
    let mut rest = all;
    let ghost input = diag_views(rest@);
    let mut out: Vec<Diagnostic> = Vec::new();
    let mut done: usize = 0;
    let total = rest.len();
    while rest.len() > 0
        invariant
            done + rest@.len() == total,
            total == input.len(),
            diag_views(rest@) =~= input.subrange(done as int, total as int),
            diag_views(out@) =~= dedup_diags(input.subrange(0, done as int)),
        decreases rest@.len(),
    {
        let ghost rest_before = rest@;
        let d = rest.remove(0);
        let ghost dv = diag_view(d);
        let ghost prev = diag_views(out@);
        proof {
            assert(diag_views(rest@) =~= diag_views(rest_before).subrange(1, rest_before.len() as int));
        }
        proof {
            assert(input.subrange(done as int, total as int)[0] == dv);
            assert(input.subrange(0, done + 1).drop_last() =~= input.subrange(0, done as int));
            assert(input.subrange(0, done + 1).last() == dv);
            assert(diag_views(rest@) =~= input.subrange(done + 1, total as int));
        }
        let repeated = out.len() > 0 && diag_eq(&out[out.len() - 1], &d);
        if !repeated {
            out.push(d);
            proof {
                assert(diag_views(out@) =~= prev.push(dv));
            }
        }
        done = done + 1;
    }
    proof {
        assert(input.subrange(0, total as int) =~= input);
    }
    out
}


pub(crate) proof fn lemma_bytes_lt_order(a: Seq<u8>, b: Seq<u8>, c: Seq<u8>, i: int)
    requires
        0 <= i,
    ensures
        bytes_lt(a, b, i) && bytes_lt(b, c, i) ==> bytes_lt(a, c, i),
        !(bytes_lt(a, b, i) && bytes_lt(b, a, i)),
    decreases a.len() - i,
{
    if i < a.len() && i < b.len() && i < c.len() && a[i] == b[i] && b[i] == c[i] {
        lemma_bytes_lt_order(a, b, c, i + 1);
    }
    if i < a.len() && i < b.len() && a[i] == b[i] {
        lemma_bytes_lt_order(a, b, a, i + 1);
    }
}

proof fn lemma_key_lt_order(a: DiagV, b: DiagV, c: DiagV)
    ensures
        key_lt(sort_key(a), sort_key(b)) && key_lt(sort_key(b), sort_key(c)) ==> key_lt(sort_key(a), sort_key(c)),
        !(key_lt(sort_key(a), sort_key(b)) && key_lt(sort_key(b), sort_key(a))),
{
    lemma_bytes_lt_order(sort_key(a).2, sort_key(b).2, sort_key(c).2, 0);
    lemma_bytes_lt_order(sort_key(a).3, sort_key(b).3, sort_key(c).3, 0);
}

/// No diagnostic sorts before one that comes earlier.
pub open spec fn diags_in_order(s: Seq<DiagV>) -> bool {
    forall|i: int, j: int| 0 <= i < j < s.len() ==> !key_lt(sort_key(#[trigger] s[j]), sort_key(#[trigger] s[i]))
}

proof fn lemma_insert_at(s: Seq<DiagV>, d: DiagV, p: int)
    requires
        0 <= p <= s.len(),
    ensures
        p <= insert_at(s, d, p) <= s.len(),
        forall|q: int| p <= q < insert_at(s, d, p) ==> !key_lt(sort_key(d), sort_key(#[trigger] s[q])),
        insert_at(s, d, p) < s.len() ==> key_lt(sort_key(d), sort_key(s[insert_at(s, d, p)])),
    decreases s.len() - p,
{
    if p < s.len() && !key_lt(sort_key(d), sort_key(s[p])) {
        lemma_insert_at(s, d, p + 1);
    }
}

proof fn lemma_sorted_diags(s: Seq<DiagV>)
    ensures
        diags_in_order(sorted_diags(s)),
        forall|x: DiagV| s.contains(x) <==> #[trigger] sorted_diags(s).contains(x),
    decreases s.len(),
{
    if s.len() > 0 {
        let r = sorted_diags(s.drop_last());
        lemma_sorted_diags(s.drop_last());
        let x = s.last();
        lemma_insert_at(r, x, 0);
        let p = insert_at(r, x, 0);
        let t = r.insert(p, x);
        assert forall|i: int, j: int| 0 <= i < j < t.len() implies !key_lt(sort_key(#[trigger] t[j]), sort_key(#[trigger] t[i])) by {
            if j < p {
                assert(t[i] == r[i] && t[j] == r[j]);
            } else if j == p {
                assert(t[i] == r[i]);
            } else if i == p {
                assert(t[j] == r[j - 1]);
                lemma_key_lt_order(r[j - 1], x, r[p]);
                lemma_key_lt_order(x, r[p], x);
            } else if i < p {
                assert(t[i] == r[i] && t[j] == r[j - 1]);
            } else {
                assert(t[i] == r[i - 1] && t[j] == r[j - 1]);
            }
        }
        assert forall|y: DiagV| s.contains(y) <==> #[trigger] t.contains(y) by {
            if s.contains(y) {
                let k = choose|k: int| 0 <= k < s.len() && s[k] == y;
                if k < s.len() - 1 {
                    assert(s.drop_last()[k] == y);
                    assert(s.drop_last().contains(y));
                    assert(r.contains(y));
                    let m = choose|m: int| 0 <= m < r.len() && r[m] == y;
                    if m < p {
                        assert(t[m] == y);
                    } else {
                        assert(t[m + 1] == y);
                    }
                } else {
                    assert(t[p] == y);
                }
            }
            if t.contains(y) {
                let k = choose|k: int| 0 <= k < t.len() && t[k] == y;
                if k == p {
                    assert(s[s.len() - 1] == y);
                } else {
                    let m = if k < p { k } else { k - 1 };
                    assert(r[m] == y);
                    assert(r.contains(y));
                    assert(s.drop_last().contains(y));
                    let n = choose|n: int| 0 <= n < s.drop_last().len() && s.drop_last()[n] == y;
                    assert(s[n] == y);
                }
            }
        }
    }
}

proof fn lemma_dedup_diags(s: Seq<DiagV>)
    requires
        diags_in_order(s),
    ensures
        diags_in_order(dedup_diags(s)),
        forall|i: int| 0 <= i < dedup_diags(s).len() - 1 ==> #[trigger] dedup_diags(s)[i] != dedup_diags(s)[i + 1],
        forall|x: DiagV| s.contains(x) <==> #[trigger] dedup_diags(s).contains(x),
    decreases s.len(),
{
    if s.len() > 0 {
        let d = s.drop_last();
        assert forall|i: int, j: int| 0 <= i < j < d.len() implies !key_lt(sort_key(#[trigger] d[j]), sort_key(#[trigger] d[i])) by {
            assert(d[i] == s[i] && d[j] == s[j]);
        }
        lemma_dedup_diags(d);
        let r = dedup_diags(d);
        let x = s.last();
        if !(r.len() > 0 && r.last() == x) {
            let t = r.push(x);
            assert forall|i: int, j: int| 0 <= i < j < t.len() implies !key_lt(sort_key(#[trigger] t[j]), sort_key(#[trigger] t[i])) by {
                if j == r.len() {
                    assert(r.contains(r[i]));
                    assert(d.contains(r[i]));
                    let m = choose|m: int| 0 <= m < d.len() && d[m] == r[i];
                    assert(s[m] == r[i]);
                } else {
                    assert(t[i] == r[i] && t[j] == r[j]);
                }
            }
            assert forall|i: int| 0 <= i < t.len() - 1 implies #[trigger] t[i] != t[i + 1] by {
                if i + 1 < r.len() {
                    assert(t[i] == r[i] && t[i + 1] == r[i + 1]);
                }
            }
        }
        let out = dedup_diags(s);
        assert forall|y: DiagV| s.contains(y) <==> #[trigger] out.contains(y) by {
            if s.contains(y) {
                let k = choose|k: int| 0 <= k < s.len() && s[k] == y;
                if k < s.len() - 1 {
                    assert(d[k] == y);
                    assert(d.contains(y));
                    assert(r.contains(y));
                    let m = choose|m: int| 0 <= m < r.len() && r[m] == y;
                    assert(out[m] == y);
                } else if r.len() > 0 && r.last() == x {
                    assert(out[r.len() - 1] == y);
                } else {
                    assert(out[r.len() as int] == y);
                }
            }
            if out.contains(y) {
                let k = choose|k: int| 0 <= k < out.len() && out[k] == y;
                if k < r.len() {
                    assert(r[k] == y);
                    assert(r.contains(y));
                    let n = choose|n: int| 0 <= n < d.len() && d[n] == y;
                    assert(s[n] == y);
                } else {
                    assert(s[s.len() - 1] == y);
                }
            }
        }
    }
}

/// The published diagnostics come sorted by span, code and message, with no diagnostic
/// repeated next to itself, and hold exactly the diagnostics that were found.
pub proof fn lemma_published_diagnostics(found: Seq<DiagV>)
    ensures
        diags_in_order(dedup_diags(sorted_diags(found))),
        forall|i: int| 0 <= i < dedup_diags(sorted_diags(found)).len() - 1 ==> #[trigger] dedup_diags(
            sorted_diags(found),
        )[i] != dedup_diags(sorted_diags(found))[i + 1],
        forall|x: DiagV| found.contains(x) <==> #[trigger] dedup_diags(sorted_diags(found)).contains(x),
{
    lemma_sorted_diags(found);
    lemma_dedup_diags(sorted_diags(found));
    assert forall|x: DiagV| found.contains(x) <==> #[trigger] dedup_diags(sorted_diags(found)).contains(x) by {
        assert(found.contains(x) <==> sorted_diags(found).contains(x));
        assert(sorted_diags(found).contains(x) <==> dedup_diags(sorted_diags(found)).contains(x));
    }
}

} // verus!
