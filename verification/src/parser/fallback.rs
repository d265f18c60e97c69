//! The line-oriented fallback parser.
//!
//! A text is cut into lines, the lines into documents at `---` and `...`, and each
//! document into directives, comments, `let` bindings and nodes. A node is read from
//! one line, or from a run of lines of equal indentation for mappings and sequences,
//! and a block scalar takes the lines indented below its header.
use vstd::prelude::*;
use vstd::utf8::valid_utf8;

use crate::ast::{
    Comment, ConditionalBranch, ConditionalNode, Directive, EntryV, ErrorNode, ItemV, LeafV,
    LetBinding, LoopNode, Mapping, MappingEntry, Node, NodeV, Scalar, ScalarKind, Sequence,
    SequenceItem, SpreadNode, TagNode,
};
use crate::diagnostics::{error_diagnostic, is_error_diagnostic, Diagnostic};
use crate::formatting::{
    crlf_to_lf, first_ws, first_ws_exec, lemma_first_ws_boundary, trim_bounds, trim_bounds_exec, trimmed_piece,
};
use crate::lexer::{lex, lexes, tokens_of};
use crate::parser::ParsedDocument;
use crate::syntax::{
    FileId, ParsedFile, ParsedRanges, ParserBackend, SourceSpan, SourceText, Symbol, SymbolKind,
};
use crate::ast::{opt_is_leaf, AstFile, DocItemV, DocV, Document, DocumentItem};
use crate::text::{
    char_boundary, count_run, find_byte, find_byte_exec, find_pat, find_pat_exec,
    lemma_boundary_after_ascii, lemma_boundary_after_ws, lemma_find_byte_bounds,
    lemma_find_pat_bounds, lemma_piece_valid, lemma_run_of_bounds, lemma_skip_ws_back_boundary,
    lemma_skip_ws_back_bounds, lemma_skip_ws_boundary, lemma_skip_ws_bounds, matches_at,
    matches_at_exec, piece_eq, push_range, run_of, skip_ws, skip_ws_back, substring, utf8,
    ws_width, ws_width_at,
};

verus! {

// ---------------------------------------------------------------------------
// Lines
/// A line of the text: start, end before its line feed, count of leading spaces, bytes.
pub type PLineV = (int, int, int, Seq<u8>);

/// The line that starts at `p`, and where the next one starts.
pub open spec fn pline_from(b: Seq<u8>, p: int) -> (PLineV, int) {
    let n = b.len() as int;
    match find_byte(b, p, n, 10) {
        Some(q) => ((p, q, run_of(b, p, q, 0x20), b.subrange(p, q)), q + 1),
        None => ((p, n, run_of(b, p, n, 0x20), b.subrange(p, n)), n),
    }
}

pub open spec fn plines_from(b: Seq<u8>, p: int) -> Seq<PLineV>
    decreases b.len() - p,
{
    if p < 0 || p >= b.len() {
        seq![]
    } else {
        let (line, next) = pline_from(b, p);
        if next <= p || next > b.len() {
            seq![]
        } else {
            seq![line] + plines_from(b, next)
        }
    }
}

/// The lines of a text; an empty text has one empty line.
pub open spec fn parser_lines(b: Seq<u8>) -> Seq<PLineV> {
    if b.len() == 0 {
        seq![(0int, 0int, 0int, Seq::<u8>::empty())]
    } else {
        plines_from(b, 0)
    }
}

pub open spec fn line_span(f: FileId, l: PLineV) -> SourceSpan {
    SourceSpan { file_id: f, start: l.0 as usize, end: l.1 as usize }
}

/// A line of the text with its offsets.
pub(crate) struct PLine {
    pub(crate) start: usize,
    pub(crate) end: usize,
    pub(crate) indent: usize,
    pub(crate) text: Vec<u8>,
}

impl PLine {
    pub(crate) open spec fn view_line(&self) -> PLineV {
        (self.start as int, self.end as int, self.indent as int, self.text@)
    }

    fn span(&self, file_id: FileId) -> (span: SourceSpan)
        ensures
            span == line_span(file_id, self.view_line()),
    {
        SourceSpan::new(file_id, self.start, self.end)
    }

    fn copy(&self) -> (line: PLine)
        ensures
            line.view_line() == self.view_line(),
    {
        let mut text: Vec<u8> = Vec::new();
        push_range(&mut text, self.text.as_slice(), 0, self.text.len());
        assert(text@ =~= self.text@);
        PLine { start: self.start, end: self.end, indent: self.indent, text }
    }
}

/// A line of the text as the parser keeps it: valid text whose offsets fit the text.
pub(crate) open spec fn pline_ok(l: PLineV) -> bool {
    &&& valid_utf8(l.3)
    &&& 0 <= l.0 <= l.1
    &&& l.1 - l.0 == l.3.len()
    &&& 0 <= l.2 <= l.3.len()
}

proof fn lemma_pline_from(b: Seq<u8>, p: int)
    requires
        0 <= p < b.len(),
    ensures
        p <= pline_from(b, p).0.1 < pline_from(b, p).1 <= b.len() || (pline_from(b, p).0.1
            == b.len() && pline_from(b, p).1 == b.len()),
        pline_from(b, p).0.0 == p,
        pline_from(b, p).1 > p,
        pline_from(b, p).1 <= b.len(),
        pline_from(b, p).0.1 < b.len() ==> b[pline_from(b, p).0.1] == 10,
        pline_from(b, p).0.3 == b.subrange(p, pline_from(b, p).0.1),
        0 <= pline_from(b, p).0.2 <= pline_from(b, p).0.1 - p,
{
    lemma_find_byte_bounds(b, p, b.len() as int, 10);
    let e = pline_from(b, p).0.1;
    lemma_run_of_bounds(b, p, e, 0x20);
}

pub(crate) fn lines_with_offsets(b: &[u8]) -> (lines: Vec<PLine>)
    requires
        valid_utf8(b@),
    ensures
        lines@.len() == parser_lines(b@).len(),
        lines@.len() >= 1,
        forall|k: int| 0 <= k < lines@.len() ==> #[trigger] lines@[k].view_line() == parser_lines(b@)[k],
        forall|k: int| 0 <= k < lines@.len() ==> pline_ok(#[trigger] lines@[k].view_line()),
        forall|k: int| 0 <= k < lines@.len() ==> #[trigger] lines@[k].end <= b@.len(),
{
    let mut lines: Vec<PLine> = Vec::new();
    if b.len() == 0 {
        let line = PLine { start: 0, end: 0, indent: 0, text: Vec::new() };
        proof {
            assert(line.text@ =~= Seq::<u8>::empty());
            crate::text::lemma_ascii_valid(line.text@);
        }
        lines.push(line);
        return lines;
    }
    let n = b.len();
    let mut p: usize = 0;
    while p < n
        invariant
            n == b@.len(),
            n > 0,
            valid_utf8(b@),
            p <= n,
            char_boundary(b@, p as int),
            plines_from(b@, 0) =~= lines@.map_values(|l: PLine| l.view_line()) + plines_from(b@, p as int),
            forall|k: int| 0 <= k < lines@.len() ==> pline_ok(#[trigger] lines@[k].view_line()),
            forall|k: int| 0 <= k < lines@.len() ==> #[trigger] lines@[k].end <= n,
        decreases n - p,
    {
        proof {
            lemma_pline_from(b@, p as int);
        }
        let (end, next) = match find_byte_exec(b, p, n, 10) {
            Some(q) => (q, q + 1),
            None => (n, n),
        };
        let indent = count_run(b, p, end, 0x20);
        proof {
            if end < n {
                lemma_boundary_after_ascii(b@, end as int);
            }
            lemma_piece_valid(b@, p as int, end as int);
        }
        let mut text: Vec<u8> = Vec::new();
        push_range(&mut text, b, p, end);
        let line = PLine { start: p, end, indent, text };
        let ghost old_lines = lines@;
        lines.push(line);
        proof {
            assert(line.text@ =~= b@.subrange(p as int, end as int));
            assert(line.view_line() == pline_from(b@, p as int).0);
            assert(plines_from(b@, p as int) =~= seq![pline_from(b@, p as int).0] + plines_from(
                b@,
                next as int,
            ));
            assert(lines@.map_values(|l: PLine| l.view_line()) =~= old_lines.map_values(
                |l: PLine| l.view_line(),
            ).push(line.view_line()));
        }
        p = next;
    }
    proof {
        lemma_pline_from(b@, 0);
        assert(plines_from(b@, 0).len() >= 1);
        assert(plines_from(b@, p as int) =~= Seq::<PLineV>::empty());
        assert forall|k: int| 0 <= k < lines@.len() implies #[trigger] lines@[k].view_line()
            == parser_lines(b@)[k] by {
            assert(lines@.map_values(|l: PLine| l.view_line())[k] == lines@[k].view_line());
        }
    }
    lines
}

// ---------------------------------------------------------------------------
// Number literals, as `str::parse::<f64>` accepts them
pub open spec fn is_digit(c: u8) -> bool {
    0x30 <= c <= 0x39
}

/// Count of ASCII digits at `i` and after.
pub open spec fn digit_run(v: Seq<u8>, i: int) -> int
    decreases v.len() - i,
{
    if 0 <= i < v.len() && is_digit(v[i]) {
        1 + digit_run(v, i + 1)
    } else {
        0
    }
}

pub open spec fn lower(c: u8) -> u8 {
    if 0x41 <= c <= 0x5a {
        (c + 32) as u8
    } else {
        c
    }
}

/// `v[i..]` is one of the words, ignoring ASCII case.
pub open spec fn word_at(v: Seq<u8>, i: int, word: Seq<u8>) -> bool {
    &&& v.len() - i == word.len()
    &&& forall|k: int| 0 <= k < word.len() ==> #[trigger] lower(v[i + k]) == word[k]
}

/// `Exp ::= 'e' Sign? Digit+`, ending the text, or nothing at `j`.
pub open spec fn exponent_ends(v: Seq<u8>, j: int) -> bool {
    ||| j == v.len()
    ||| {
        &&& j < v.len()
        &&& lower(v[j]) == 0x65
        &&& {
            let k = if j + 1 < v.len() && (v[j + 1] == 0x2b || v[j + 1] == 0x2d) {
                j + 2
            } else {
                j + 1
            };
            digit_run(v, k) > 0 && k + digit_run(v, k) == v.len()
        }
    }
}

/// `Number ::= (Digit+ | Digit+ '.' Digit* | Digit* '.' Digit+) Exp?` from `i` to the end.
pub open spec fn number_from(v: Seq<u8>, i: int) -> bool {
    let d1 = digit_run(v, i);
    let j = i + d1;
    if j < v.len() && v[j] == 0x2e {
        let d2 = digit_run(v, j + 1);
        d1 + d2 > 0 && exponent_ends(v, j + 1 + d2)
    } else {
        d1 > 0 && exponent_ends(v, j)
    }
}

/// "inf", "infinity" and "nan"
pub open spec fn word_inf() -> Seq<u8> {
    seq![0x69u8, 0x6eu8, 0x66u8]
}

pub open spec fn word_infinity() -> Seq<u8> {
    seq![0x69u8, 0x6eu8, 0x66u8, 0x69u8, 0x6eu8, 0x69u8, 0x74u8, 0x79u8]
}

pub open spec fn word_nan() -> Seq<u8> {
    seq![0x6eu8, 0x61u8, 0x6eu8]
}

/// The grammar that `f64`'s `FromStr` documents: `Sign? ('inf' | 'infinity' | 'nan' | Number)`,
/// ignoring ASCII case.
pub open spec fn is_float_literal(v: Seq<u8>) -> bool {
    let i = if v.len() > 0 && (v[0] == 0x2b || v[0] == 0x2d) {
        1int
    } else {
        0int
    };
    ||| word_at(v, i, word_inf())
    ||| word_at(v, i, word_infinity())
    ||| word_at(v, i, word_nan())
    ||| number_from(v, i)
}

fn digit_run_exec(v: &[u8], i: usize) -> (n: usize)
    requires
        i <= v@.len(),
    ensures
        n == digit_run(v@, i as int),
        i + n <= v.len(),
{
    let mut j = i;
    while j < v.len() && 0x30 <= v[j] && v[j] <= 0x39
        invariant
            i <= j <= v@.len(),
            digit_run(v@, i as int) == (j - i) + digit_run(v@, j as int),
        decreases v@.len() - j,
    {
        j = j + 1;
    }
    j - i
}

fn lower_exec(c: u8) -> (r: u8)
    ensures
        r == lower(c),
{
    if 0x41 <= c && c <= 0x5a {
        c + 32
    } else {
        c
    }
}

fn word_at_exec(v: &[u8], i: usize, word: &[u8]) -> (r: bool)
    requires
        i <= v@.len(),
    ensures
        r == word_at(v@, i as int, word@),
{
    if v.len() - i != word.len() {
        return false;
    }
    let n = v.len();
    let mut k: usize = 0;
    while k < word.len()
        invariant
            n == v@.len(),
            i <= v@.len(),
            v@.len() - i == word@.len(),
            k <= word@.len(),
            forall|m: int| 0 <= m < k ==> #[trigger] lower(v@[i + m]) == word@[m],
        decreases word@.len() - k,
    {
        if lower_exec(v[i + k]) != word[k] {
            return false;
        }
        k = k + 1;
    }
    true
}

fn exponent_ends_exec(v: &[u8], j: usize) -> (r: bool)
    requires
        j <= v@.len(),
    ensures
        r == exponent_ends(v@, j as int),
{
    if j == v.len() {
        return true;
    }
    if lower_exec(v[j]) != 0x65 {
        return false;
    }
    let k = if j + 1 < v.len() && (v[j + 1] == 0x2b || v[j + 1] == 0x2d) {
        j + 2
    } else {
        j + 1
    };
    let d = digit_run_exec(v, k);
    d > 0 && k + d == v.len()
}

fn number_from_exec(v: &[u8], i: usize) -> (r: bool)
    requires
        i <= v@.len(),
    ensures
        r == number_from(v@, i as int),
{
    let d1 = digit_run_exec(v, i);
    let j = i + d1;
    if j < v.len() && v[j] == 0x2e {
        let d2 = digit_run_exec(v, j + 1);
        d1 + d2 > 0 && exponent_ends_exec(v, j + 1 + d2)
    } else {
        d1 > 0 && exponent_ends_exec(v, j)
    }
}

/// Whether `str::parse::<f64>` accepts the text.
pub fn is_float_literal_exec(v: &[u8]) -> (r: bool)
    ensures
        r == is_float_literal(v@),
{
    let inf: [u8; 3] = [0x69, 0x6e, 0x66];
    let infinity: [u8; 8] = [0x69, 0x6e, 0x66, 0x69, 0x6e, 0x69, 0x74, 0x79];
    let nan: [u8; 3] = [0x6e, 0x61, 0x6e];
    proof {
        assert(inf@ =~= word_inf());
        assert(infinity@ =~= word_infinity());
        assert(nan@ =~= word_nan());
    }
    let i: usize = if v.len() > 0 && (v[0] == 0x2b || v[0] == 0x2d) {
        1
    } else {
        0
    };
    word_at_exec(v, i, inf.as_slice()) || word_at_exec(v, i, infinity.as_slice()) || word_at_exec(
        v,
        i,
        nan.as_slice(),
    ) || number_from_exec(v, i)
}

// ---------------------------------------------------------------------------
// Scalars
pub open spec fn dollar_brace() -> Seq<u8> {
    seq![0x24u8, 0x7bu8]
}

pub open spec fn lua_brace() -> Seq<u8> {
    seq![0x6cu8, 0x75u8, 0x61u8, 0x7bu8]
}

pub open spec fn fence_lua() -> Seq<u8> {
    seq![0x60u8, 0x60u8, 0x60u8, 0x6cu8, 0x75u8, 0x61u8]
}

/// Kind of an inline scalar, read from how its text starts.
pub open spec fn scalar_kind(v: Seq<u8>) -> ScalarKind {
    if matches_at(v, 0, v.len() as int, dollar_brace()) || (v.len() > 0 && v[0] == 0x3d) {
        ScalarKind::LuaExpression
    } else if matches_at(v, 0, v.len() as int, lua_brace()) || matches_at(
        v,
        0,
        v.len() as int,
        fence_lua(),
    ) {
        ScalarKind::LuaBlock
    } else if v.len() > 0 && (v[0] == 0x22 || v[0] == 0x27) {
        ScalarKind::String
    } else if is_float_literal(v) {
        ScalarKind::Number
    } else {
        ScalarKind::Plain
    }
}

/// A parser error: code, message, span.
pub type PErrV = (Seq<char>, Seq<char>, SourceSpan);

pub open spec fn f004(f: FileId, l: PLineV) -> PErrV {
    ("F004"@, "could not locate scalar text"@, line_span(f, l))
}

/// The scalar `l.text[vs..ve]`, found at its first occurrence in the line.
pub open spec fn inline_scalar_spec(f: FileId, l: PLineV, vs: int, ve: int) -> (LeafV, Seq<PErrV>) {
    let t = l.3;
    let v = t.subrange(vs, ve);
    match find_pat(t, 0, t.len() as int, v) {
        Some(o) => (
            LeafV::Scalar {
                kind: scalar_kind(v),
                span: SourceSpan {
                    file_id: f,
                    start: (l.0 + o) as usize,
                    end: (l.0 + o + v.len()) as usize,
                },
                text: v,
            },
            seq![],
        ),
        None => (
            LeafV::Error { span: line_span(f, l), message: utf8("could not locate scalar text"@) },
            seq![f004(f, l)],
        ),
    }
}

/// The parser's diagnostics are exactly the errors listed, in order.
pub open spec fn diags_match(ds: Seq<Diagnostic>, es: Seq<PErrV>) -> bool {
    &&& ds.len() == es.len()
    &&& forall|k: int|
        0 <= k < ds.len() ==> is_error_diagnostic(
            #[trigger] ds[k],
            "lumals.parser"@,
            es[k].0,
            es[k].1,
            es[k].2,
        )
}

fn scalar_kind_exec(v: &[u8]) -> (k: ScalarKind)
    ensures
        k == scalar_kind(v@),
{
    let db: [u8; 2] = [0x24, 0x7b];
    let lb: [u8; 4] = [0x6c, 0x75, 0x61, 0x7b];
    let fl: [u8; 6] = [0x60, 0x60, 0x60, 0x6c, 0x75, 0x61];
    proof {
        assert(db@ =~= dollar_brace());
        assert(lb@ =~= lua_brace());
        assert(fl@ =~= fence_lua());
    }
    if matches_at_exec(v, 0, v.len(), db.as_slice()) || (v.len() > 0 && v[0] == 0x3d) {
        ScalarKind::LuaExpression
    } else if matches_at_exec(v, 0, v.len(), lb.as_slice()) || matches_at_exec(
        v,
        0,
        v.len(),
        fl.as_slice(),
    ) {
        ScalarKind::LuaBlock
    } else if v.len() > 0 && (v[0] == 0x22 || v[0] == 0x27) {
        ScalarKind::String
    } else if is_float_literal_exec(v) {
        ScalarKind::Number
    } else {
        ScalarKind::Plain
    }
}

// ---------------------------------------------------------------------------
// One-line items
pub open spec fn let_kw() -> Seq<u8> {
    seq![0x6cu8, 0x65u8, 0x74u8, 0x20u8]
}

/// `(start, end)` of `t[x..y]` with white space trimmed on both sides.
pub open spec fn trim_in(t: Seq<u8>, x: int, y: int) -> (int, int) {
    let a = skip_ws(t, x, y);
    (a, skip_ws_back(t, a, y))
}

pub open spec fn piece(t: Seq<u8>, r: (int, int)) -> Seq<u8> {
    t.subrange(r.0, r.1)
}

/// A `#` comment: the text after `#`, its leading white space removed.
pub open spec fn comment_spec(f: FileId, l: PLineV) -> Option<DocItemV> {
    let t = l.3;
    let n = t.len() as int;
    let s0 = skip_ws(t, 0, n);
    if s0 < n && t[s0] == 0x23 {
        Some(DocItemV::Comment { span: line_span(f, l), text: t.subrange(skip_ws(t, s0 + 1, n), n) })
    } else {
        None
    }
}

/// An `@name value` directive: its first word when that starts with `@`.
pub open spec fn directive_spec(f: FileId, l: PLineV) -> Option<DocItemV> {
    let t = l.3;
    let n = t.len() as int;
    let s0 = skip_ws(t, 0, n);
    let h = first_ws(t, s0, n);
    if s0 < n && t[s0] == 0x40 {
        let r = trim_in(t, h, n);
        Some(
            DocItemV::Directive {
                name: t.subrange(s0, h),
                span: line_span(f, l),
                value: if r.0 == r.1 {
                    None
                } else {
                    Some(piece(t, r))
                },
            },
        )
    } else {
        None
    }
}

pub open spec fn f001(f: FileId, l: PLineV) -> PErrV {
    ("F001"@, "expected '=' in let binding"@, line_span(f, l))
}

/// A `let name = value` binding; without `=` it is reported and keeps the rest as name.
pub open spec fn let_spec(f: FileId, l: PLineV) -> Option<(DocItemV, Seq<PErrV>)> {
    let t = l.3;
    let n = t.len() as int;
    let s0 = skip_ws(t, 0, n);
    let r = s0 + 4;
    if !matches_at(t, s0, n, let_kw()) {
        None
    } else {
        match find_byte(t, r, n, 0x3d) {
            None => Some(
                (
                    DocItemV::Let {
                        name: piece(t, trim_in(t, r, n)),
                        span: line_span(f, l),
                        value_span: None,
                    },
                    seq![f001(f, l)],
                ),
            ),
            Some(q) => {
                let eq = match find_byte(t, 0, n, 0x3d) {
                    Some(x) => x,
                    None => 0,
                };
                Some(
                    (
                        DocItemV::Let {
                            name: piece(t, trim_in(t, r, q)),
                            span: line_span(f, l),
                            value_span: Some(
                                SourceSpan {
                                    file_id: f,
                                    start: (l.0 + eq + 1) as usize,
                                    end: l.1 as usize,
                                },
                            ),
                        },
                        seq![],
                    ),
                )
            },
        }
    }
}

// ---------------------------------------------------------------------------
// Nodes
pub open spec fn dots() -> Seq<u8> {
    seq![0x2eu8, 0x2eu8, 0x2eu8]
}

pub open spec fn q_if() -> Seq<u8> {
    seq![0x3fu8, 0x69u8, 0x66u8, 0x20u8]
}

pub open spec fn q_elif() -> Seq<u8> {
    seq![0x3fu8, 0x65u8, 0x6cu8, 0x69u8, 0x66u8, 0x20u8]
}

pub open spec fn q_else() -> Seq<u8> {
    seq![0x3fu8, 0x65u8, 0x6cu8, 0x73u8, 0x65u8]
}

pub open spec fn for_kw() -> Seq<u8> {
    seq![0x2au8, 0x66u8, 0x6fu8, 0x72u8, 0x20u8]
}

/// Position after every leading `...` of `t[p..e]`.
pub open spec fn skip_dots(t: Seq<u8>, p: int, e: int) -> int
    decreases e - p,
{
    if matches_at(t, p, e, dots()) {
        skip_dots(t, p + 3, e)
    } else {
        p
    }
}

/// Label of a conditional line: `else`, `elif` or `if`.
pub open spec fn conditional_label(t: Seq<u8>, s: int, e: int) -> Seq<u8> {
    if t.subrange(s, e) == q_else() {
        seq![0x65u8, 0x6cu8, 0x73u8, 0x65u8]
    } else if matches_at(t, s, e, q_elif()) {
        seq![0x65u8, 0x6cu8, 0x69u8, 0x66u8]
    } else {
        seq![0x69u8, 0x66u8]
    }
}

/// End offset of the last line a node spans, `ls[end - 1]`, or of `ls[index]` when it took none.
pub open spec fn span_end(ls: Seq<PLineV>, index: int, end: int) -> int {
    if end > index {
        ls[end - 1].1
    } else {
        ls[index].1
    }
}

/// Lines from `j` that belong to a block scalar indented at least `expected`.
pub open spec fn block_end(ls: Seq<PLineV>, j: int, expected: int) -> int
    decreases ls.len() - j,
{
    if j < 0 || j >= ls.len() {
        j
    } else if trim_bounds(ls[j].3).0 == trim_bounds(ls[j].3).1 {
        block_end(ls, j + 1, expected)
    } else if ls[j].2 < expected {
        j
    } else {
        block_end(ls, j + 1, expected)
    }
}

pub proof fn lemma_block_end(ls: Seq<PLineV>, j: int, expected: int)
    requires
        0 <= j <= ls.len(),
    ensures
        j <= block_end(ls, j, expected) <= ls.len(),
    decreases ls.len() - j,
{
    if j < ls.len() {
        lemma_block_end(ls, j + 1, expected);
    }
}

pub open spec fn f003(f: FileId, l: PLineV) -> PErrV {
    ("F003"@, "expected indented block string content"@, line_span(f, l))
}

/// The bytes of `b[start..end]` when the span is a slice of the source, else nothing.
pub open spec fn source_slice(b: Seq<u8>, start: int, end: int) -> Seq<u8> {
    if start <= end <= b.len() && char_boundary(b, start) && char_boundary(b, end) {
        b.subrange(start, end)
    } else {
        seq![]
    }
}

/// A block scalar under the header line `h`: the lines indented two more than the header.
pub open spec fn block_spec(f: FileId, b: Seq<u8>, ls: Seq<PLineV>, h: int) -> (LeafV, int, Seq<PErrV>) {
    let end = block_end(ls, h + 1, ls[h].2 + 2);
    let stop = span_end(ls, h, end);
    (
        LeafV::Scalar {
            kind: ScalarKind::BlockString,
            span: SourceSpan { file_id: f, start: ls[h].0 as usize, end: stop as usize },
            text: source_slice(b, ls[h].0, stop),
        },
        end - h,
        if end == h + 1 {
            seq![f003(f, ls[h])]
        } else {
            seq![]
        },
    )
}

/// Items of a sequence from line `end` on: lines at indentation `base` that start with `-`.
pub open spec fn seq_items(f: FileId, ls: Seq<PLineV>, end: int, base: int) -> (
    Seq<ItemV>,
    int,
    Seq<PErrV>,
)
    decreases ls.len() - end,
{
    if end < 0 || end >= ls.len() {
        (seq![], end, seq![])
    } else {
        let l = ls[end];
        let t = l.3;
        let n = t.len() as int;
        let tb = trim_bounds(t);
        let s0 = skip_ws(t, 0, n);
        if tb.0 == tb.1 {
            seq_items(f, ls, end + 1, base)
        } else if l.2 != base || !(s0 < n && t[s0] == 0x2d) {
            (seq![], end, seq![])
        } else {
            let r = trim_in(t, s0 + 1, n);
            let x = inline_scalar_spec(f, l, r.0, r.1);
            let value = if r.0 == r.1 {
                None
            } else {
                Some(x.0)
            };
            let errs = if r.0 == r.1 {
                seq![]
            } else {
                x.1
            };
            let rest = seq_items(f, ls, end + 1, base);
            (seq![ItemV { span: line_span(f, l), value }] + rest.0, rest.1, errs + rest.2)
        }
    }
}

pub open spec fn f002(f: FileId, l: PLineV) -> PErrV {
    ("F002"@, "expected mapping entry"@, line_span(f, l))
}

/// The entry that line `l` starts, with the colon at `k` and the value trimmed to `v`.
pub open spec fn entry_spec(
    f: FileId,
    b: Seq<u8>,
    ls: Seq<PLineV>,
    end: int,
    s: int,
    k: int,
) -> (EntryV, int, Seq<PErrV>) {
    let l = ls[end];
    let t = l.3;
    let n = t.len() as int;
    let e = trim_bounds(t).1;
    let key = t.subrange(s, k);
    let ko = match find_pat(t, 0, n, key) {
        Some(o) => o,
        None => 0,
    };
    let key_span = SourceSpan {
        file_id: f,
        start: (l.0 + ko) as usize,
        end: (l.0 + ko + (k - s)) as usize,
    };
    let v = trim_in(t, k + 1, e);
    let block = block_spec(f, b, ls, end);
    let x = inline_scalar_spec(f, l, v.0, v.1);
    let is_block = v.0 < v.1 && (t[v.0] == 0x7c || t[v.0] == 0x3e);
    let value = if v.0 == v.1 {
        None
    } else if is_block {
        Some(block.0)
    } else {
        Some(x.0)
    };
    let metadata = if v.0 < v.1 && !is_block && t[v.0] == 0x40 {
        Some(t.subrange(v.0 + 1, v.1))
    } else {
        None
    };
    let next = if is_block {
        end + block.1
    } else {
        end + 1
    };
    let errs = if v.0 == v.1 {
        seq![]
    } else if is_block {
        block.2
    } else {
        x.1
    };
    (
        EntryV {
            key: piece(t, trim_in(t, s, k)),
            key_span,
            span: line_span(f, l),
            value,
            metadata,
        },
        next,
        errs,
    )
}

/// Entries of a mapping from line `end` on: lines at indentation `base` holding a colon.
pub open spec fn map_entries(f: FileId, b: Seq<u8>, ls: Seq<PLineV>, end: int, base: int) -> (
    Seq<EntryV>,
    int,
    Seq<PErrV>,
)
    decreases ls.len() - end,
{
    if end < 0 || end >= ls.len() {
        (seq![], end, seq![])
    } else {
        let l = ls[end];
        let t = l.3;
        let tb = trim_bounds(t);
        if tb.0 == tb.1 {
            map_entries(f, b, ls, end + 1, base)
        } else if l.2 != base || find_byte(t, tb.0, tb.1, 0x3a) is None || t[tb.0] == 0x2d {
            (seq![], end, seq![])
        } else {
            let k = find_byte(t, tb.0, tb.1, 0x3a)->0;
            let x = entry_spec(f, b, ls, end, tb.0, k);
            proof {
                lemma_block_end(ls, end + 1, ls[end].2 + 2);
            }
            let rest = map_entries(f, b, ls, x.1, base);
            (seq![x.0] + rest.0, rest.1, x.2 + rest.2)
        }
    }
}

/// A `...target` spread line.
pub open spec fn spread_spec(f: FileId, l: PLineV) -> NodeV {
    let t = l.3;
    let (s, e) = trim_bounds(t);
    NodeV::Spread { span: line_span(f, l), target: piece(t, trim_in(t, skip_dots(t, s, e), e)) }
}

/// A `?if`, `?elif` or `?else` line.
pub open spec fn conditional_spec(f: FileId, l: PLineV) -> NodeV {
    let t = l.3;
    let (s, e) = trim_bounds(t);
    NodeV::Conditional {
        span: line_span(f, l),
        condition: piece(t, trim_in(t, s + 1, e)),
        branches: seq![(conditional_label(t, s, e), line_span(f, l))],
    }
}

/// A `*for` line.
pub open spec fn loop_spec(f: FileId, l: PLineV) -> NodeV {
    let t = l.3;
    let (s, e) = trim_bounds(t);
    NodeV::Loop { span: line_span(f, l), header: piece(t, trim_in(t, s + 1, e)) }
}

/// A `!tag value` line: the name up to the first white space, then the value.
pub open spec fn tag_spec(f: FileId, l: PLineV) -> (NodeV, Seq<PErrV>) {
    let t = l.3;
    let (s, e) = trim_bounds(t);
    let h = first_ws(t, s + 1, e);
    let r = trim_in(t, h + ws_width(t, h, e), e);
    let x = inline_scalar_spec(f, l, r.0, r.1);
    (
        NodeV::Tag {
            name: t.subrange(s + 1, h),
            span: line_span(f, l),
            value: if h == e {
                None
            } else {
                Some(x.0)
            },
        },
        if h == e {
            seq![]
        } else {
            x.1
        },
    )
}

/// The node that starts at line `index` of a document whose lines are `ls`, how many lines
/// it takes, and the errors it reports.
pub open spec fn node_spec(f: FileId, b: Seq<u8>, ls: Seq<PLineV>, index: int) -> (
    NodeV,
    int,
    Seq<PErrV>,
) {
    let l = ls[index];
    let t = l.3;
    let (s, e) = trim_bounds(t);
    let span = line_span(f, l);
    if matches_at(t, s, e, dots()) && e - s != 3 {
        (spread_spec(f, l), 1, seq![])
    } else if matches_at(t, s, e, q_if()) || matches_at(t, s, e, q_elif()) || t.subrange(s, e)
        == q_else() {
        (conditional_spec(f, l), 1, seq![])
    } else if matches_at(t, s, e, for_kw()) {
        (loop_spec(f, l), 1, seq![])
    } else if s < e && t[s] == 0x21 {
        (tag_spec(f, l).0, 1, tag_spec(f, l).1)
    } else if s < e && t[s] == 0x2d {
        let r = seq_items(f, ls, index, l.2);
        (
            NodeV::Sequence {
                span: SourceSpan {
                    file_id: f,
                    start: l.0 as usize,
                    end: span_end(ls, index, r.1) as usize,
                },
                items: r.0,
            },
            r.1 - index,
            r.2,
        )
    } else if find_byte(t, s, e, 0x3a) is Some {
        let r = map_entries(f, b, ls, index, l.2);
        if r.0.len() == 0 {
            (
                NodeV::Leaf(
                    LeafV::Error { span, message: utf8("expected mapping entry"@) },
                ),
                1,
                r.2 + seq![f002(f, l)],
            )
        } else {
            (
                NodeV::Mapping {
                    span: SourceSpan {
                        file_id: f,
                        start: l.0 as usize,
                        end: span_end(ls, index, r.1) as usize,
                    },
                    entries: r.0,
                },
                r.1 - index,
                r.2,
            )
        }
    } else {
        let x = inline_scalar_spec(f, l, s, e);
        (NodeV::Leaf(x.0), 1, x.1)
    }
}

/// What line `index` of a document gives: an item or nothing, where the next item starts,
/// and the errors reported on the way.
pub open spec fn doc_step(f: FileId, b: Seq<u8>, ls: Seq<PLineV>, index: int) -> (
    Option<DocItemV>,
    int,
    Seq<PErrV>,
) {
    let l = ls[index];
    let t = l.3;
    let tb = trim_bounds(t);
    if tb.0 == tb.1 || t.subrange(tb.0, tb.1) == dots() {
        (None, index + 1, seq![])
    } else if comment_spec(f, l) is Some {
        (comment_spec(f, l), index + 1, seq![])
    } else if directive_spec(f, l) is Some {
        (directive_spec(f, l), index + 1, seq![])
    } else if let_spec(f, l) is Some {
        (Some((let_spec(f, l)->0).0), index + 1, (let_spec(f, l)->0).1)
    } else {
        let x = node_spec(f, b, ls, index);
        let step = if x.1 > 1 {
            x.1
        } else {
            1
        };
        (Some(DocItemV::Node(x.0)), index + step, x.2)
    }
}

pub open spec fn opt_seq<A>(x: Option<A>) -> Seq<A> {
    match x {
        Some(v) => seq![v],
        None => seq![],
    }
}

/// The items of a document from line `index` on, and the errors they report.
pub open spec fn doc_items(f: FileId, b: Seq<u8>, ls: Seq<PLineV>, index: int) -> (
    Seq<DocItemV>,
    Seq<PErrV>,
)
    decreases (if 0 <= index < ls.len() {
        ls.len() - index
    } else {
        0
    }),
{
    if index < 0 || index >= ls.len() {
        (seq![], seq![])
    } else {
        let st = doc_step(f, b, ls, index);
        let r = doc_items(f, b, ls, st.1);
        (opt_seq(st.0) + r.0, st.2 + r.1)
    }
}

/// A document made of the lines `ls`, after the separator `sep` if one opened it.
pub open spec fn document_spec(f: FileId, b: Seq<u8>, ls: Seq<PLineV>, sep: Option<SourceSpan>) -> (
    DocV,
    Seq<PErrV>,
) {
    let r = doc_items(f, b, ls, 0);
    let span = if ls.len() > 0 {
        SourceSpan { file_id: f, start: ls[0].0 as usize, end: ls.last().1 as usize }
    } else {
        match sep {
            Some(x) => x,
            None => SourceSpan { file_id: f, start: 0, end: b.len() as usize },
        }
    };
    (DocV { span, separator_span: sep, items: r.0 }, r.1)
}

pub open spec fn dashes() -> Seq<u8> {
    seq![0x2du8, 0x2du8, 0x2du8]
}

/// What line `k` does while documents are gathered: the end of the document it closes, if
/// any, and the new start and separator of the document being gathered.
pub open spec fn file_step(f: FileId, ls: Seq<PLineV>, k: int, lo: int, sep: Option<SourceSpan>) -> (
    Option<int>,
    int,
    Option<SourceSpan>,
) {
    let l = ls[k];
    let t = l.3;
    let tb = trim_bounds(t);
    let tt = t.subrange(tb.0, tb.1);
    if tt == dashes() {
        (
            if lo < k || sep is Some {
                Some(k)
            } else {
                None
            },
            k + 1,
            Some(line_span(f, l)),
        )
    } else if tt == dots() {
        (Some(k + 1), k + 1, None)
    } else {
        (None, lo, sep)
    }
}

/// Documents of the file from line `k` on, where the current document started at line `lo`
/// after separator `sep`, and `have` tells whether a document was already made.
pub open spec fn file_docs(
    f: FileId,
    b: Seq<u8>,
    ls: Seq<PLineV>,
    k: int,
    lo: int,
    sep: Option<SourceSpan>,
    have: bool,
) -> (Seq<DocV>, Seq<PErrV>)
    decreases ls.len() - k,
{
    if k < 0 || k >= ls.len() {
        if lo < ls.len() || !have {
            let d = document_spec(f, b, ls.subrange(lo, ls.len() as int), sep);
            (seq![d.0], d.1)
        } else {
            (seq![], seq![])
        }
    } else {
        let st = file_step(f, ls, k, lo, sep);
        match st.0 {
            Some(stop) => {
                let d = document_spec(f, b, ls.subrange(lo, stop), sep);
                let r = file_docs(f, b, ls, k + 1, st.1, st.2, true);
                (seq![d.0] + r.0, d.1 + r.1)
            },
            None => file_docs(f, b, ls, k + 1, st.1, st.2, have),
        }
    }
}

/// The documents of a whole text and the parser's errors.
pub open spec fn parse_file_spec(f: FileId, b: Seq<u8>) -> (Seq<DocV>, Seq<PErrV>) {
    file_docs(f, b, parser_lines(b), 0, 0, None, false)
}

pub(crate) open spec fn views(lines: Seq<PLine>) -> Seq<PLineV> {
    lines.map_values(|l: PLine| l.view_line())
}

/// Every line of a document is kept text whose offsets fit.
spec fn lines_ok(lines: Seq<PLine>) -> bool {
    forall|k: int|
        0 <= k < lines.len() ==> pline_ok(#[trigger] lines[k].view_line()) && line_fits(
            lines[k].view_line(),
        )
}

/// `new` is `old` followed by diagnostics for exactly the errors `errs`.
pub open spec fn extends(new: Seq<Diagnostic>, old: Seq<Diagnostic>, errs: Seq<PErrV>) -> bool {
    &&& new.len() >= old.len()
    &&& new.subrange(0, old.len() as int) == old
    &&& diags_match(new.subrange(old.len() as int, new.len() as int), errs)
}

pub proof fn lemma_extends_trans(
    a: Seq<Diagnostic>,
    b: Seq<Diagnostic>,
    c: Seq<Diagnostic>,
    e1: Seq<PErrV>,
    e2: Seq<PErrV>,
)
    requires
        extends(b, a, e1),
        extends(c, b, e2),
    ensures
        extends(c, a, e1 + e2),
{
    assert(c.subrange(0, a.len() as int) =~= b.subrange(0, a.len() as int)) by {
        assert forall|k: int| 0 <= k < a.len() implies c.subrange(0, a.len() as int)[k]
            == b.subrange(0, a.len() as int)[k] by {
            assert(c.subrange(0, b.len() as int)[k] == b[k]);
        }
    }
    let d = c.subrange(a.len() as int, c.len() as int);
    let d1 = b.subrange(a.len() as int, b.len() as int);
    let d2 = c.subrange(b.len() as int, c.len() as int);
    assert forall|k: int| 0 <= k < d.len() implies is_error_diagnostic(
        #[trigger] d[k],
        "lumals.parser"@,
        (e1 + e2)[k].0,
        (e1 + e2)[k].1,
        (e1 + e2)[k].2,
    ) by {
        if k < d1.len() {
            assert(d[k] == c[a.len() + k]);
            assert(c.subrange(0, b.len() as int)[a.len() + k] == b[a.len() + k]);
            assert(d1[k] == b[a.len() + k]);
        } else {
            assert(d[k] == d2[k - d1.len()]);
        }
    }
}

pub proof fn lemma_extends_refl(a: Seq<Diagnostic>)
    ensures
        extends(a, a, seq![]),
{
    assert(a.subrange(0, a.len() as int) =~= a);
    assert(a.subrange(a.len() as int, a.len() as int) =~= Seq::<Diagnostic>::empty());
}

/// Copies of the lines `lines[lo..hi]`.
fn copy_lines(lines: &Vec<PLine>, lo: usize, hi: usize) -> (out: Vec<PLine>)
    requires
        lo <= hi <= lines@.len(),
        lines_ok(lines@),
    ensures
        views(out@) == views(lines@).subrange(lo as int, hi as int),
        lines_ok(out@),
{
    let mut out: Vec<PLine> = Vec::new();
    let mut i = lo;
    while i < hi
        invariant
            lo <= i <= hi <= lines@.len(),
            lines_ok(lines@),
            lines_ok(out@),
            views(out@) =~= views(lines@).subrange(lo as int, i as int),
        decreases hi - i,
    {
        let copy = lines[i].copy();
        let ghost before = out@;
        out.push(copy);
        proof {
            assert(views(out@) =~= views(before).push(copy.view_line()));
            assert(views(lines@)[i as int] == lines@[i as int].view_line());
            assert(lines_ok(out@)) by {
                assert forall|k: int| 0 <= k < out@.len() implies pline_ok(
                    #[trigger] out@[k].view_line(),
                ) && line_fits(out@[k].view_line()) by {
                    if k < before.len() {
                        assert(out@[k] == before[k]);
                    }
                }
            }
        }
        i = i + 1;
    }
    out
}

/// The parser's state: the source it reads and the errors so far.
struct Parser<'a> {
    source: &'a SourceText,
    diagnostics: Vec<Diagnostic>,
}

/// Offsets of a line fit in `usize` once added to its start.
spec fn line_fits(l: PLineV) -> bool {
    l.0 + l.3.len() + 2 <= usize::MAX
}

impl<'a> Parser<'a> {
    fn new(source: &'a SourceText) -> (p: Self)
        ensures
            p.source == source,
            p.diagnostics@.len() == 0,
    {
        Parser { source, diagnostics: Vec::new() }
    }

    fn error(&mut self, code: &str, message: &str, span: SourceSpan)
        ensures
            final(self).source == old(self).source,
            final(self).diagnostics@.len() == old(self).diagnostics@.len() + 1,
            final(self).diagnostics@.subrange(0, old(self).diagnostics@.len() as int)
                == old(self).diagnostics@,
            is_error_diagnostic(
                final(self).diagnostics@.last(),
                "lumals.parser"@,
                code@,
                message@,
                span,
            ),
    {
        let d = error_diagnostic("lumals.parser", code, message, span);
        self.diagnostics.push(d);
        assert(self.diagnostics@.subrange(0, old(self).diagnostics@.len() as int)
            =~= old(self).diagnostics@);
    }

    fn inline_scalar(&mut self, line: &PLine, vs: usize, ve: usize) -> (node: Node)
        requires
            pline_ok(line.view_line()),
            line_fits(line.view_line()),
            vs <= ve <= line.text@.len(),
            char_boundary(line.text@, vs as int),
            char_boundary(line.text@, ve as int),
        ensures
            final(self).source == old(self).source,
            node.leaf_view() == inline_scalar_spec(
                final(self).source.file_id,
                line.view_line(),
                vs as int,
                ve as int,
            ).0,
            node is Scalar || node is Error,
            diags_match(
                final(self).diagnostics@.subrange(
                    old(self).diagnostics@.len() as int,
                    final(self).diagnostics@.len() as int,
                ),
                inline_scalar_spec(final(self).source.file_id, line.view_line(), vs as int, ve as int).1,
            ),
            final(self).diagnostics@.subrange(0, old(self).diagnostics@.len() as int)
                == old(self).diagnostics@,
            final(self).diagnostics@.len() >= old(self).diagnostics@.len(),
    {
        let t = line.text.as_slice();
        let f = self.source.file_id;
        let mut value: Vec<u8> = Vec::new();
        push_range(&mut value, t, vs, ve);
        let kind = scalar_kind_exec(value.as_slice());
        proof {
            lemma_find_pat_bounds(t@, 0, t@.len() as int, value@);
            assert(value@ =~= t@.subrange(vs as int, ve as int));
        }
        let ghost old_d = self.diagnostics@;
        match find_pat_exec(t, 0, t.len(), value.as_slice()) {
            None => {
                self.error("F004", "could not locate scalar text", line.span(f));
                proof {
                    reveal_strlit("could not locate scalar text");
                    let new_d = self.diagnostics@.subrange(old_d.len() as int, self.diagnostics@.len() as int);
                    assert(new_d[0] == self.diagnostics@.last());
                }
                let msg = "could not locate scalar text".to_owned();
                proof {
                    crate::text::lemma_str_valid(msg@);
                }
                Node::Error(ErrorNode { span: line.span(f), message: msg })
            },
            Some(o) => {
                proof {
                    lemma_piece_valid(t@, vs as int, ve as int);
                }
                let text = crate::text::bytes_to_string(value);
                let span = SourceSpan::new(f, line.start + o, line.start + o + (ve - vs));
                proof {
                    assert(self.diagnostics@.subrange(old_d.len() as int, self.diagnostics@.len() as int)
                        =~= Seq::<Diagnostic>::empty());
                    assert(self.diagnostics@.subrange(0, old_d.len() as int) =~= old_d);
                }
                Node::Scalar(Scalar { kind, span, text })
            },
        }
    }

    fn parse_block_string(&mut self, lines: &Vec<PLine>, h: usize) -> (r: (Node, usize))
        requires
            lines_ok(lines@),
            h < lines@.len(),
        ensures
            final(self).source == old(self).source,
            r.0.leaf_view() == block_spec(
                final(self).source.file_id,
                final(self).source.bytes(),
                views(lines@),
                h as int,
            ).0,
            r.0 is Scalar,
            r.1 as int == block_spec(
                final(self).source.file_id,
                final(self).source.bytes(),
                views(lines@),
                h as int,
            ).1,
            extends(
                final(self).diagnostics@,
                old(self).diagnostics@,
                block_spec(
                    final(self).source.file_id,
                    final(self).source.bytes(),
                    views(lines@),
                    h as int,
                ).2,
            ),
    {
        let ghost ls = views(lines@);
        let f = self.source.file_id;
        let header = &lines[h];
        assert(ls[h as int] == header.view_line());
        let expected = header.indent + 2;
        let n = lines.len();
        let mut end = h + 1;
        let mut done = false;
        proof {
            lemma_block_end(ls, h + 1, expected as int);
        }
        while end < lines.len() && !done
            invariant
                ls == views(lines@),
                lines_ok(lines@),
                h + 1 <= end <= lines@.len(),
                block_end(ls, end as int, expected as int) == block_end(ls, h + 1, expected as int),
                done ==> block_end(ls, end as int, expected as int) == end,
            decreases lines@.len() - end + (if done { 0int } else { 1int }),
        {
            let line = &lines[end];
            assert(ls[end as int] == line.view_line());
            let (s, e) = trim_bounds_exec(line.text.as_slice());
            if s == e {
                end = end + 1;
            } else if line.indent < expected {
                done = true;
            } else {
                end = end + 1;
            }
        }
        let ghost old_d = self.diagnostics@;
        if end == h + 1 {
            self.error("F003", "expected indented block string content", header.span(f));
            proof {
                let nd = self.diagnostics@.subrange(old_d.len() as int, self.diagnostics@.len() as int);
                assert(nd[0] == self.diagnostics@.last());
            }
        } else {
            proof {
                lemma_extends_refl(old_d);
            }
        }
        let stop = if end > h {
            lines[end - 1].end
        } else {
            header.end
        };
        proof {
            if end > h {
                assert(ls[end - 1] == lines@[end - 1].view_line());
            }
        }
        let span = SourceSpan::new(f, header.start, stop);
        let text = match self.source.slice(span) {
            Some(piece) => piece.to_owned(),
            None => String::new(),
        };
        (Node::Scalar(Scalar { kind: ScalarKind::BlockString, span, text }), end - h)
    }

    fn parse_sequence(&mut self, lines: &Vec<PLine>, index: usize) -> (r: (Node, usize))
        requires
            lines_ok(lines@),
            index < lines@.len(),
        ensures
            final(self).source == old(self).source,
            ({
                let ls = views(lines@);
                let q = seq_items(final(self).source.file_id, ls, index as int, ls[index as int].2);
                &&& r.0.view_node() == NodeV::Sequence {
                    span: SourceSpan {
                        file_id: final(self).source.file_id,
                        start: ls[index as int].0 as usize,
                        end: span_end(ls, index as int, q.1) as usize,
                    },
                    items: q.0,
                }
                &&& r.1 as int == q.1 - index
                &&& r.0.nested_leaves()
                &&& extends(final(self).diagnostics@, old(self).diagnostics@, q.2)
            }),
    {
        let ghost ls = views(lines@);
        let ghost d0 = self.diagnostics@;
        let f = self.source.file_id;
        let n = lines.len();
        let base = lines[index].indent;
        assert(ls[index as int] == lines@[index as int].view_line());
        let mut items: Vec<SequenceItem> = Vec::new();
        let ghost mut errs: Seq<PErrV> = seq![];
        let mut end = index;
        let mut done = false;
        proof {
            lemma_extends_refl(d0);
        }
        while end < n && !done
            invariant
                n == lines@.len(),
                ls == views(lines@),
                lines_ok(lines@),
                index <= end <= n,
                self.source.file_id == f,
                self.source == old(self).source,
                d0 == old(self).diagnostics@,
                forall|i: int| 0 <= i < items@.len() ==> opt_is_leaf(#[trigger] items@[i].value),
                seq_items(f, ls, index as int, base as int).0 =~= items@.map_values(
                    |i: SequenceItem| i.view_item(),
                ) + seq_items(f, ls, end as int, base as int).0,
                seq_items(f, ls, index as int, base as int).1 == seq_items(
                    f,
                    ls,
                    end as int,
                    base as int,
                ).1,
                seq_items(f, ls, index as int, base as int).2 =~= errs + seq_items(
                    f,
                    ls,
                    end as int,
                    base as int,
                ).2,
                extends(self.diagnostics@, d0, errs),
                done ==> seq_items(f, ls, end as int, base as int) == (
                    Seq::<ItemV>::empty(),
                    end as int,
                    Seq::<PErrV>::empty(),
                ),
            decreases n - end + (if done { 0int } else { 1int }),
        {
            let line = &lines[end];
            assert(ls[end as int] == line.view_line());
            let t = line.text.as_slice();
            let tn = t.len();
            let (s, e) = trim_bounds_exec(t);
            let s0 = crate::text::trim_start_at(t, 0, tn);
            proof {
                lemma_skip_ws_bounds(t@, 0, tn as int);
                lemma_skip_ws_boundary(t@, 0, tn as int);
            }
            if s == e {
                end = end + 1;
            } else if line.indent != base || !(s0 < tn && t[s0] == 0x2d) {
                done = true;
            } else {
                proof {
                    lemma_boundary_after_ascii(t@, s0 as int);
                }
                let (vs, ve) = trimmed_piece(t, s0 + 1, tn);
                let ghost dm = self.diagnostics@;
                let ghost x = inline_scalar_spec(f, line.view_line(), vs as int, ve as int);
                let value = if vs == ve {
                    proof {
                        lemma_extends_refl(dm);
                    }
                    None
                } else {
                    let node = self.inline_scalar(line, vs, ve);
                    Some(Box::new(node))
                };
                let ghost step_errs = if vs == ve {
                    Seq::<PErrV>::empty()
                } else {
                    x.1
                };
                proof {
                    lemma_extends_trans(d0, dm, self.diagnostics@, errs, step_errs);
                }
                let item = SequenceItem { span: line.span(f), value };
                let ghost before = items@;
                items.push(item);
                proof {
                    assert(items@.map_values(|i: SequenceItem| i.view_item()) =~= before.map_values(
                        |i: SequenceItem| i.view_item(),
                    ).push(item.view_item()));
                    errs = errs + step_errs;
                }
                end = end + 1;
            }
        }
        proof {
            if !done {
                assert(seq_items(f, ls, end as int, base as int) == (
                    Seq::<ItemV>::empty(),
                    end as int,
                    Seq::<PErrV>::empty(),
                ));
            }
            assert(items@.map_values(|i: SequenceItem| i.view_item()) + Seq::<ItemV>::empty()
                =~= items@.map_values(|i: SequenceItem| i.view_item()));
            assert(errs + Seq::<PErrV>::empty() =~= errs);
        }
        let stop = if end > index {
            lines[end - 1].end
        } else {
            lines[index].end
        };
        proof {
            if end > index {
                assert(ls[end - 1] == lines@[end - 1].view_line());
            }
        }
        (
            Node::Sequence(
                Sequence { span: SourceSpan::new(f, lines[index].start, stop), items },
            ),
            end - index,
        )
    }

    /// The entry on line `end`, whose trimmed text `t[s..e]` holds its first colon at `k`.
    fn parse_entry(&mut self, lines: &Vec<PLine>, end: usize, s: usize, k: usize) -> (r: (
        MappingEntry,
        usize,
    ))
        requires
            lines_ok(lines@),
            end < lines@.len(),
            ({
                let t = lines@[end as int].text@;
                let tb = trim_bounds(t);
                &&& tb.0 == s
                &&& find_byte(t, tb.0, tb.1, 0x3a) == Some(k as int)
            }),
        ensures
            final(self).source == old(self).source,
            ({
                let x = entry_spec(
                    final(self).source.file_id,
                    final(self).source.bytes(),
                    views(lines@),
                    end as int,
                    s as int,
                    k as int,
                );
                &&& r.0.view_entry() == x.0
                &&& opt_is_leaf(r.0.value)
                &&& r.1 as int == x.1
                &&& extends(final(self).diagnostics@, old(self).diagnostics@, x.2)
            }),
    {
        let ghost ls = views(lines@);
        let f = self.source.file_id;
        let line = &lines[end];
        assert(ls[end as int] == line.view_line());
        let t = line.text.as_slice();
        let tn = t.len();
        let (s1, e) = trim_bounds_exec(t);
        proof {
            lemma_find_byte_bounds(t@, s as int, e as int, 0x3a);
            lemma_boundary_after_ascii(t@, k as int);
        }
        let mut key: Vec<u8> = Vec::new();
        push_range(&mut key, t, s, k);
        proof {
            assert(key@ =~= t@.subrange(s as int, k as int));
        }
        let ko = match find_pat_exec(t, 0, tn, key.as_slice()) {
            Some(o) => o,
            None => 0,
        };
        proof {
            lemma_find_pat_bounds(t@, 0, tn as int, key@);
        }
        let key_span = SourceSpan::new(f, line.start + ko, line.start + ko + (k - s));
        let (vs, ve) = trimmed_piece(t, k + 1, e);
        let is_block = vs < ve && (t[vs] == 0x7c || t[vs] == 0x3e);
        let ghost d0 = self.diagnostics@;
        let n = lines.len();
        proof {
            lemma_block_end(ls, end + 1, ls[end as int].2 + 2);
        }
        let mut next = end + 1;
        let value = if vs == ve {
            proof {
                lemma_extends_refl(d0);
            }
            None
        } else if is_block {
            let (block, consumed) = self.parse_block_string(lines, end);
            next = end + consumed;
            Some(Box::new(block))
        } else {
            let node = self.inline_scalar(line, vs, ve);
            Some(Box::new(node))
        };
        let metadata = if vs < ve && !is_block && t[vs] == 0x40 {
            proof {
                lemma_boundary_after_ascii(t@, vs as int);
            }
            Some(substring(t, vs + 1, ve))
        } else {
            None
        };
        let (ks, ke) = trimmed_piece(t, s, k);
        proof {
            lemma_block_end(ls, end + 1, ls[end as int].2 + 2);
        }
        (
            MappingEntry {
                key: substring(t, ks, ke),
                key_span,
                span: line.span(f),
                value,
                metadata,
            },
            next,
        )
    }

    fn parse_mapping(&mut self, lines: &Vec<PLine>, index: usize) -> (r: (Vec<MappingEntry>, usize))
        requires
            lines_ok(lines@),
            index < lines@.len(),
        ensures
            final(self).source == old(self).source,
            ({
                let ls = views(lines@);
                let q = map_entries(
                    final(self).source.file_id,
                    final(self).source.bytes(),
                    ls,
                    index as int,
                    ls[index as int].2,
                );
                &&& r.0@.map_values(|e: MappingEntry| e.view_entry()) == q.0
                &&& forall|i: int| 0 <= i < r.0@.len() ==> opt_is_leaf(#[trigger] r.0@[i].value)
                &&& r.1 as int == q.1
                &&& index <= r.1 <= lines@.len()
                &&& extends(final(self).diagnostics@, old(self).diagnostics@, q.2)
            }),
    {
        let ghost ls = views(lines@);
        let ghost d0 = self.diagnostics@;
        let f = self.source.file_id;
        let ghost b = self.source.bytes();
        let n = lines.len();
        let base = lines[index].indent;
        assert(ls[index as int] == lines@[index as int].view_line());
        let mut entries: Vec<MappingEntry> = Vec::new();
        let ghost mut errs: Seq<PErrV> = seq![];
        let mut end = index;
        let mut done = false;
        proof {
            lemma_extends_refl(d0);
        }
        while end < n && !done
            invariant
                n == lines@.len(),
                ls == views(lines@),
                lines_ok(lines@),
                index <= end <= n,
                self.source.file_id == f,
                self.source == old(self).source,
                b == self.source.bytes(),
                d0 == old(self).diagnostics@,
                forall|i: int| 0 <= i < entries@.len() ==> opt_is_leaf(#[trigger] entries@[i].value),
                map_entries(f, b, ls, index as int, base as int).0 =~= entries@.map_values(
                    |e: MappingEntry| e.view_entry(),
                ) + map_entries(f, b, ls, end as int, base as int).0,
                map_entries(f, b, ls, index as int, base as int).1 == map_entries(
                    f,
                    b,
                    ls,
                    end as int,
                    base as int,
                ).1,
                map_entries(f, b, ls, index as int, base as int).2 =~= errs + map_entries(
                    f,
                    b,
                    ls,
                    end as int,
                    base as int,
                ).2,
                extends(self.diagnostics@, d0, errs),
                done ==> map_entries(f, b, ls, end as int, base as int) == (
                    Seq::<EntryV>::empty(),
                    end as int,
                    Seq::<PErrV>::empty(),
                ),
            decreases n - end + (if done { 0int } else { 1int }),
        {
            let line = &lines[end];
            assert(ls[end as int] == line.view_line());
            let t = line.text.as_slice();
            let (s, e) = trim_bounds_exec(t);
            proof {
                lemma_find_byte_bounds(t@, s as int, e as int, 0x3a);
            }
            if s == e {
                end = end + 1;
            } else {
                let colon = find_byte_exec(t, s, e, 0x3a);
                if line.indent != base || colon.is_none() || t[s] == 0x2d {
                    done = true;
                } else {
                    let k = colon.unwrap();
                    let ghost dm = self.diagnostics@;
                    let (entry, next) = self.parse_entry(lines, end, s, k);
                    proof {
                        lemma_block_end(ls, end + 1, ls[end as int].2 + 2);
                        let x = entry_spec(f, b, ls, end as int, s as int, k as int);
                        lemma_extends_trans(d0, dm, self.diagnostics@, errs, x.2);
                        errs = errs + x.2;
                    }
                    let ghost before = entries@;
                    entries.push(entry);
                    proof {
                        assert(entries@.map_values(|e: MappingEntry| e.view_entry())
                            =~= before.map_values(|e: MappingEntry| e.view_entry()).push(
                            entry.view_entry(),
                        ));
                    }
                    end = next;
                }
            }
        }
        proof {
            if !done {
                assert(map_entries(f, b, ls, end as int, base as int) == (
                    Seq::<EntryV>::empty(),
                    end as int,
                    Seq::<PErrV>::empty(),
                ));
            }
            assert(entries@.map_values(|e: MappingEntry| e.view_entry()) + Seq::<EntryV>::empty()
                =~= entries@.map_values(|e: MappingEntry| e.view_entry()));
            assert(errs + Seq::<PErrV>::empty() =~= errs);
        }
        (entries, end)
    }

    fn parse_spread(&self, line: &PLine) -> (node: Node)
        requires
            pline_ok(line.view_line()),
            ({
                let t = line.text@;
                let (s, e) = trim_bounds(t);
                matches_at(t, s, e, dots())
            }),
        ensures
            node.view_node() == spread_spec(self.source.file_id, line.view_line()),
    {
        let t = line.text.as_slice();
        let (s, e) = trim_bounds_exec(t);
        let dots_pat: [u8; 3] = [0x2e, 0x2e, 0x2e];
        proof {
            assert(dots_pat@ =~= dots());
        }
        let mut p = s;
        while matches_at_exec(t, p, e, dots_pat.as_slice())
            invariant
                s <= p <= e <= t@.len(),
                dots_pat@ == dots(),
                valid_utf8(t@),
                char_boundary(t@, p as int),
                skip_dots(t@, p as int, e as int) == skip_dots(t@, s as int, e as int),
            decreases e - p,
        {
            proof {
                assert(t@.subrange(p as int, p + 3)[2] == t@[p + 2]);
                lemma_boundary_after_ascii(t@, p + 2);
            }
            p = p + 3;
        }
        let (ts, te) = trimmed_piece(t, p, e);
        Node::Spread(SpreadNode { span: line.span(self.source.file_id), target: substring(t, ts, te) })
    }

    fn parse_conditional(&self, line: &PLine) -> (node: Node)
        requires
            pline_ok(line.view_line()),
            ({
                let t = line.text@;
                let (s, e) = trim_bounds(t);
                matches_at(t, s, e, q_if()) || matches_at(t, s, e, q_elif()) || t.subrange(s, e)
                    == q_else()
            }),
        ensures
            node.view_node() == conditional_spec(self.source.file_id, line.view_line()),
    {
        let t = line.text.as_slice();
        let (s, e) = trim_bounds_exec(t);
        let elif_pat: [u8; 6] = [0x3f, 0x65, 0x6c, 0x69, 0x66, 0x20];
        let else_pat: [u8; 5] = [0x3f, 0x65, 0x6c, 0x73, 0x65];
        proof {
            assert(elif_pat@ =~= q_elif());
            assert(else_pat@ =~= q_else());
        }
        let is_elif = matches_at_exec(t, s, e, elif_pat.as_slice());
        let is_else = piece_eq(t, s, e, else_pat.as_slice());
        proof {
            if matches_at(t@, s as int, e as int, q_if()) {
                assert(t@.subrange(s as int, s + 4)[0] == t@[s as int]);
            } else if is_elif {
                assert(t@.subrange(s as int, s + 6)[0] == t@[s as int]);
            } else {
                assert(t@.subrange(s as int, e as int) == q_else());
                assert(q_else().len() == 5);
                assert(t@.subrange(s as int, e as int).len() == 5);
                assert(e - s == 5);
                assert(t@.subrange(s as int, e as int)[0] == t@[s as int]);
            }
            lemma_boundary_after_ascii(t@, s as int);
        }
        let mut label_bytes: Vec<u8> = Vec::new();
        if is_else {
            label_bytes.push(0x65);
            label_bytes.push(0x6c);
            label_bytes.push(0x73);
            label_bytes.push(0x65);
        } else if is_elif {
            label_bytes.push(0x65);
            label_bytes.push(0x6c);
            label_bytes.push(0x69);
            label_bytes.push(0x66);
        } else {
            label_bytes.push(0x69);
            label_bytes.push(0x66);
        }
        proof {
            assert(label_bytes@ =~= conditional_label(t@, s as int, e as int));
            assert(crate::text::all_ascii(label_bytes@));
        }
        let label = crate::text::ascii_string(label_bytes);
        let span = line.span(self.source.file_id);
        let (cs, ce) = trimmed_piece(t, s + 1, e);
        let mut branches: Vec<ConditionalBranch> = Vec::new();
        branches.push(ConditionalBranch { label, span });
        proof {
            assert(branches@.map_values(|b: ConditionalBranch| (utf8(b.label@), b.span))
                =~= seq![(conditional_label(t@, s as int, e as int), span)]);
        }
        Node::Conditional(ConditionalNode { span, condition: substring(t, cs, ce), branches })
    }

    fn parse_loop(&self, line: &PLine) -> (node: Node)
        requires
            pline_ok(line.view_line()),
            ({
                let t = line.text@;
                let (s, e) = trim_bounds(t);
                matches_at(t, s, e, for_kw())
            }),
        ensures
            node.view_node() == loop_spec(self.source.file_id, line.view_line()),
    {
        let t = line.text.as_slice();
        let (s, e) = trim_bounds_exec(t);
        proof {
            assert(t@.subrange(s as int, s + 5)[0] == t@[s as int]);
            lemma_boundary_after_ascii(t@, s as int);
        }
        let (hs, he) = trimmed_piece(t, s + 1, e);
        Node::Loop(LoopNode { span: line.span(self.source.file_id), header: substring(t, hs, he) })
    }

    fn parse_tag(&mut self, line: &PLine) -> (node: Node)
        requires
            pline_ok(line.view_line()),
            line_fits(line.view_line()),
            ({
                let t = line.text@;
                let (s, e) = trim_bounds(t);
                s < e && t[s] == 0x21
            }),
        ensures
            final(self).source == old(self).source,
            node.view_node() == tag_spec(final(self).source.file_id, line.view_line()).0,
            node.nested_leaves(),
            extends(
                final(self).diagnostics@,
                old(self).diagnostics@,
                tag_spec(final(self).source.file_id, line.view_line()).1,
            ),
    {
        let t = line.text.as_slice();
        let (s, e) = trim_bounds_exec(t);
        proof {
            lemma_boundary_after_ascii(t@, s as int);
        }
        let h = first_ws_exec(t, s + 1, e);
        proof {
            lemma_first_ws_boundary(t@, s + 1, e as int);
            lemma_extends_refl(self.diagnostics@);
        }
        let name = substring(t, s + 1, h);
        let value = if h == e {
            None
        } else {
            let w = ws_width_at(t, h, e);
            proof {
                lemma_boundary_after_ws(t@, h as int, e as int);
            }
            let (vs, ve) = trimmed_piece(t, h + w, e);
            let node = self.inline_scalar(line, vs, ve);
            Some(Box::new(node))
        };
        Node::Tag(TagNode { name, span: line.span(self.source.file_id), value })
    }

    fn parse_node(&mut self, lines: &Vec<PLine>, index: usize) -> (r: (Node, usize))
        requires
            lines_ok(lines@),
            index < lines@.len(),
        ensures
            final(self).source == old(self).source,
            ({
                let x = node_spec(
                    final(self).source.file_id,
                    final(self).source.bytes(),
                    views(lines@),
                    index as int,
                );
                &&& r.0.view_node() == x.0
                &&& r.0.nested_leaves()
                &&& r.1 as int == x.1
                &&& extends(final(self).diagnostics@, old(self).diagnostics@, x.2)
            }),
    {
        let ghost ls = views(lines@);
        let ghost d0 = self.diagnostics@;
        let f = self.source.file_id;
        let line = &lines[index];
        assert(ls[index as int] == line.view_line());
        let t = line.text.as_slice();
        let (s, e) = trim_bounds_exec(t);
        let dots_pat: [u8; 3] = [0x2e, 0x2e, 0x2e];
        let if_pat: [u8; 4] = [0x3f, 0x69, 0x66, 0x20];
        let elif_pat: [u8; 6] = [0x3f, 0x65, 0x6c, 0x69, 0x66, 0x20];
        let else_pat: [u8; 5] = [0x3f, 0x65, 0x6c, 0x73, 0x65];
        let for_pat: [u8; 5] = [0x2a, 0x66, 0x6f, 0x72, 0x20];
        proof {
            assert(dots_pat@ =~= dots());
            assert(if_pat@ =~= q_if());
            assert(elif_pat@ =~= q_elif());
            assert(else_pat@ =~= q_else());
            assert(for_pat@ =~= for_kw());
            lemma_extends_refl(d0);
        }
        let span = line.span(f);
        if matches_at_exec(t, s, e, dots_pat.as_slice()) && e - s != 3 {
            return (self.parse_spread(line), 1);
        }
        let is_if = matches_at_exec(t, s, e, if_pat.as_slice());
        let is_elif = matches_at_exec(t, s, e, elif_pat.as_slice());
        let is_else = piece_eq(t, s, e, else_pat.as_slice());
        if is_if || is_elif || is_else {
            return (self.parse_conditional(line), 1);
        }
        if matches_at_exec(t, s, e, for_pat.as_slice()) {
            return (self.parse_loop(line), 1);
        }
        if s < e && t[s] == 0x21 {
            return (self.parse_tag(line), 1);
        }
        if s < e && t[s] == 0x2d {
            return self.parse_sequence(lines, index);
        }
        proof {
            lemma_find_byte_bounds(t@, s as int, e as int, 0x3a);
        }
        if find_byte_exec(t, s, e, 0x3a).is_some() {
            let ghost dm = self.diagnostics@;
            let (entries, end) = self.parse_mapping(lines, index);
            if entries.len() == 0 {
                let ghost d1 = self.diagnostics@;
                self.error("F002", "expected mapping entry", span);
                proof {
                    let nd = self.diagnostics@.subrange(d1.len() as int, self.diagnostics@.len() as int);
                    assert(nd[0] == self.diagnostics@.last());
                    let q = map_entries(f, self.source.bytes(), ls, index as int, ls[index as int].2);
                    lemma_extends_trans(d0, d1, self.diagnostics@, q.2, seq![f002(f, ls[index as int])]);
                }
                let message = "expected mapping entry".to_owned();
                return (Node::Error(ErrorNode { span, message }), 1);
            }
            let stop = if end > index {
                lines[end - 1].end
            } else {
                line.end
            };
            proof {
                if end > index {
                    assert(ls[end - 1] == lines@[end - 1].view_line());
                }
            }
            return (
                Node::Mapping(Mapping { span: SourceSpan::new(f, line.start, stop), entries }),
                end - index,
            );
        }
        let node = self.inline_scalar(line, s, e);
        (node, 1)
    }

    /// Parses the lines gathered for one document and appends it.
    fn push_document(
        &mut self,
        documents: &mut Vec<Document>,
        current: &Vec<PLine>,
        separator_span: Option<SourceSpan>,
    )
        requires
            lines_ok(current@),
            forall|i: int|
                0 <= i < old(documents)@.len() ==> (#[trigger] old(documents)@[i]).nodes_nested_leaves(),
        ensures
            final(self).source == old(self).source,
            final(documents)@.map_values(|d: Document| d.view_doc()) == old(documents)@.map_values(
                |d: Document| d.view_doc(),
            ).push(
                document_spec(
                    final(self).source.file_id,
                    final(self).source.bytes(),
                    views(current@),
                    separator_span,
                ).0,
            ),
            forall|i: int|
                0 <= i < final(documents)@.len() ==> (#[trigger] final(documents)@[i]).nodes_nested_leaves(),
            extends(
                final(self).diagnostics@,
                old(self).diagnostics@,
                document_spec(
                    final(self).source.file_id,
                    final(self).source.bytes(),
                    views(current@),
                    separator_span,
                ).1,
            ),
    {
        let doc = self.parse_document(current, separator_span);
        let ghost before = documents@;
        documents.push(doc);
        proof {
            assert(documents@.map_values(|d: Document| d.view_doc()) =~= before.map_values(
                |d: Document| d.view_doc(),
            ).push(doc.view_doc()));
        }
    }

    /// Reads line `k` while documents are gathered, closing a document where it ends one.
    fn file_line(
        &mut self,
        lines: &Vec<PLine>,
        k: usize,
        lo: usize,
        separator_span: Option<SourceSpan>,
        documents: &mut Vec<Document>,
    ) -> (r: (usize, Option<SourceSpan>))
        requires
            lines_ok(lines@),
            lo <= k < lines@.len(),
            forall|i: int|
                0 <= i < old(documents)@.len() ==> (#[trigger] old(documents)@[i]).nodes_nested_leaves(),
        ensures
            final(self).source == old(self).source,
            ({
                let f = final(self).source.file_id;
                let b = final(self).source.bytes();
                let ls = views(lines@);
                let st = file_step(f, ls, k as int, lo as int, separator_span);
                &&& r.0 as int == st.1
                &&& r.1 == st.2
                &&& r.0 <= k + 1
                &&& match st.0 {
                    Some(stop) => {
                        let d = document_spec(f, b, ls.subrange(lo as int, stop), separator_span);
                        &&& final(documents)@.map_values(|d: Document| d.view_doc())
                            == old(documents)@.map_values(|d: Document| d.view_doc()).push(d.0)
                        &&& extends(final(self).diagnostics@, old(self).diagnostics@, d.1)
                    },
                    None => {
                        &&& final(documents)@ == old(documents)@
                        &&& final(self).diagnostics@ == old(self).diagnostics@
                    },
                }
            }),
            forall|i: int|
                0 <= i < final(documents)@.len() ==> (#[trigger] final(documents)@[i]).nodes_nested_leaves(),
    {
        let ghost ls = views(lines@);
        let f = self.source.file_id;
        let dashes_pat: [u8; 3] = [0x2d, 0x2d, 0x2d];
        let dots_pat: [u8; 3] = [0x2e, 0x2e, 0x2e];
        proof {
            assert(dashes_pat@ =~= dashes());
            assert(dots_pat@ =~= dots());
        }
        let n = lines.len();
        let line = &lines[k];
        assert(ls[k as int] == line.view_line());
        let t = line.text.as_slice();
        let (s, e) = trim_bounds_exec(t);
        if piece_eq(t, s, e, dashes_pat.as_slice()) {
            if lo < k || separator_span.is_some() {
                let current = copy_lines(lines, lo, k);
                self.push_document(documents, &current, separator_span);
            }
            (k + 1, Some(line.span(f)))
        } else if piece_eq(t, s, e, dots_pat.as_slice()) {
            let current = copy_lines(lines, lo, k + 1);
            self.push_document(documents, &current, separator_span);
            (k + 1, None)
        } else {
            (lo, separator_span)
        }
    }

    fn parse_file(&mut self) -> (file: AstFile)
        requires
            self.source.bytes().len() + 2 <= usize::MAX,
        ensures
            final(self).source == old(self).source,
            file.span == (SourceSpan {
                file_id: final(self).source.file_id,
                start: 0,
                end: final(self).source.bytes().len() as usize,
            }),
            file.documents@.map_values(|d: Document| d.view_doc()) == parse_file_spec(
                final(self).source.file_id,
                final(self).source.bytes(),
            ).0,
            forall|i: int|
                0 <= i < file.documents@.len() ==> (#[trigger] file.documents@[i]).nodes_nested_leaves(),
            extends(
                final(self).diagnostics@,
                old(self).diagnostics@,
                parse_file_spec(final(self).source.file_id, final(self).source.bytes()).1,
            ),
    {
        let f = self.source.file_id;
        let ghost b = self.source.bytes();
        let ghost d0 = self.diagnostics@;
        let bytes = self.source.as_str().as_bytes();
        proof {
            crate::text::lemma_str_valid(self.source.text@);
        }
        let lines = lines_with_offsets(bytes);
        let ghost ls = views(lines@);
        let n = lines.len();
        proof {
            assert(ls =~= parser_lines(b));
            assert forall|k: int| 0 <= k < lines@.len() implies pline_ok(
                #[trigger] lines@[k].view_line(),
            ) && line_fits(lines@[k].view_line()) by {
                assert(lines@[k].end <= b.len());
            }
            lemma_extends_refl(d0);
        }
        let mut documents: Vec<Document> = Vec::new();
        let mut separator_span: Option<SourceSpan> = None;
        let mut lo: usize = 0;
        let ghost mut errs: Seq<PErrV> = seq![];
        let mut k: usize = 0;
        while k < n
            invariant
                n == lines@.len(),
                ls == views(lines@),
                lines_ok(lines@),
                ls =~= parser_lines(b),
                lo <= k <= n,
                self.source.file_id == f,
                self.source == old(self).source,
                b == self.source.bytes(),
                d0 == old(self).diagnostics@,
                forall|i: int|
                    0 <= i < documents@.len() ==> (#[trigger] documents@[i]).nodes_nested_leaves(),
                file_docs(f, b, ls, 0, 0, None, false).0 =~= documents@.map_values(
                    |d: Document| d.view_doc(),
                ) + file_docs(f, b, ls, k as int, lo as int, separator_span, documents@.len() > 0).0,
                file_docs(f, b, ls, 0, 0, None, false).1 =~= errs + file_docs(
                    f,
                    b,
                    ls,
                    k as int,
                    lo as int,
                    separator_span,
                    documents@.len() > 0,
                ).1,
                extends(self.diagnostics@, d0, errs),
            decreases n - k,
        {
            let ghost dm = self.diagnostics@;
            let ghost before = documents@;
            let ghost st = file_step(f, ls, k as int, lo as int, separator_span);
            let (next_lo, next_sep) = self.file_line(&lines, k, lo, separator_span, &mut documents);
            proof {
                match st.0 {
                    Some(stop) => {
                        let d = document_spec(f, b, ls.subrange(lo as int, stop), separator_span);
                        lemma_extends_trans(d0, dm, self.diagnostics@, errs, d.1);
                        errs = errs + d.1;
                    },
                    None => {},
                }
            }
            lo = next_lo;
            separator_span = next_sep;
            k = k + 1;
        }
        let ghost dm = self.diagnostics@;
        if lo < n || documents.len() == 0 {
            let current = copy_lines(&lines, lo, n);
            self.push_document(&mut documents, &current, separator_span);
            proof {
                let d = document_spec(f, b, views(current@), separator_span);
                lemma_extends_trans(d0, dm, self.diagnostics@, errs, d.1);
                errs = errs + d.1;
                assert(errs =~= errs + Seq::<PErrV>::empty());
            }
        } else {
            proof {
                assert(documents@.map_values(|d: Document| d.view_doc()) + Seq::<DocV>::empty()
                    =~= documents@.map_values(|d: Document| d.view_doc()));
                assert(errs + Seq::<PErrV>::empty() =~= errs);
            }
        }
        AstFile { span: self.source.full_span(), documents }
    }

    fn parse_document_item(&mut self, lines: &Vec<PLine>, index: usize) -> (r: (
        Option<DocumentItem>,
        usize,
    ))
        requires
            lines_ok(lines@),
            index < lines@.len(),
        ensures
            final(self).source == old(self).source,
            ({
                let st = doc_step(
                    final(self).source.file_id,
                    final(self).source.bytes(),
                    views(lines@),
                    index as int,
                );
                &&& (match r.0 {
                    Some(i) => st.0 == Some(i.view_item()),
                    None => st.0 is None,
                })
                &&& (r.0 matches Some(DocumentItem::Node(n)) ==> n.nested_leaves())
                &&& r.1 as int == if st.1 > lines@.len() {
                    lines@.len() as int
                } else {
                    st.1
                }
                &&& index < r.1
                &&& extends(final(self).diagnostics@, old(self).diagnostics@, st.2)
            }),
    {
        let ghost ls = views(lines@);
        let n = lines.len();
        let line = &lines[index];
        assert(ls[index as int] == line.view_line());
        let t = line.text.as_slice();
        let (s, e) = trim_bounds_exec(t);
        let dots_pat: [u8; 3] = [0x2e, 0x2e, 0x2e];
        proof {
            assert(dots_pat@ =~= dots());
            lemma_extends_refl(self.diagnostics@);
        }
        if s == e || piece_eq(t, s, e, dots_pat.as_slice()) {
            return (None, index + 1);
        }
        if let Some(comment) = self.parse_comment(line) {
            return (Some(DocumentItem::Comment(comment)), index + 1);
        }
        if let Some(directive) = self.parse_directive(line) {
            return (Some(DocumentItem::Directive(directive)), index + 1);
        }
        if let Some(binding) = self.parse_let(line) {
            return (Some(DocumentItem::Let(binding)), index + 1);
        }
        let (node, consumed) = self.parse_node(lines, index);
        let step = if consumed > 1 {
            consumed
        } else {
            1
        };
        let next = if step >= n - index {
            n
        } else {
            index + step
        };
        (Some(DocumentItem::Node(node)), next)
    }

    fn parse_document(&mut self, lines: &Vec<PLine>, separator_span: Option<SourceSpan>) -> (doc:
        Document)
        requires
            lines_ok(lines@),
        ensures
            final(self).source == old(self).source,
            doc.view_doc() == document_spec(
                final(self).source.file_id,
                final(self).source.bytes(),
                views(lines@),
                separator_span,
            ).0,
            doc.nodes_nested_leaves(),
            extends(
                final(self).diagnostics@,
                old(self).diagnostics@,
                document_spec(
                    final(self).source.file_id,
                    final(self).source.bytes(),
                    views(lines@),
                    separator_span,
                ).1,
            ),
    {
        let ghost ls = views(lines@);
        let ghost d0 = self.diagnostics@;
        let f = self.source.file_id;
        let ghost b = self.source.bytes();
        let n = lines.len();
        proof {
            lemma_extends_refl(d0);
        }
        let mut items: Vec<DocumentItem> = Vec::new();
        let ghost mut errs: Seq<PErrV> = seq![];
        let mut index: usize = 0;
        while index < n
            invariant
                n == lines@.len(),
                ls == views(lines@),
                lines_ok(lines@),
                index <= n,
                self.source.file_id == f,
                self.source == old(self).source,
                b == self.source.bytes(),
                d0 == old(self).diagnostics@,
                forall|i: int|
                    0 <= i < items@.len() ==> (#[trigger] items@[i] matches DocumentItem::Node(n)
                        ==> n.nested_leaves()),
                doc_items(f, b, ls, 0).0 =~= items@.map_values(|i: DocumentItem| i.view_item())
                    + doc_items(f, b, ls, index as int).0,
                doc_items(f, b, ls, 0).1 =~= errs + doc_items(f, b, ls, index as int).1,
                extends(self.diagnostics@, d0, errs),
            decreases n - index,
        {
            let ghost before = items@;
            let ghost dm = self.diagnostics@;
            let (item, next) = self.parse_document_item(lines, index);
            proof {
                let st = doc_step(f, b, ls, index as int);
                lemma_extends_trans(d0, dm, self.diagnostics@, errs, st.2);
                errs = errs + st.2;
                assert(doc_items(f, b, ls, st.1) == doc_items(f, b, ls, next as int));
            }
            match item {
                Some(i) => {
                    items.push(i);
                    proof {
                        assert(items@.map_values(|i: DocumentItem| i.view_item())
                            =~= before.map_values(|i: DocumentItem| i.view_item()).push(
                            items@.last().view_item(),
                        ));
                    }
                },
                None => {},
            }
            index = next;
        }
        proof {
            assert(items@.map_values(|i: DocumentItem| i.view_item()) + Seq::<DocItemV>::empty()
                =~= items@.map_values(|i: DocumentItem| i.view_item()));
            assert(errs + Seq::<PErrV>::empty() =~= errs);
        }
        let span = if n > 0 {
            proof {
                assert(ls[0] == lines@[0].view_line());
                assert(ls.last() == lines@[n - 1].view_line());
            }
            SourceSpan::new(f, lines[0].start, lines[n - 1].end)
        } else {
            match separator_span {
                Some(x) => x,
                None => self.source.full_span(),
            }
        };
        Document { span, separator_span, items }
    }

    fn parse_directive(&self, line: &PLine) -> (r: Option<Directive>)
        requires
            pline_ok(line.view_line()),
        ensures
            match directive_spec(self.source.file_id, line.view_line()) {
                None => r is None,
                Some(v) => r matches Some(d) && DocumentItem::Directive(d).view_item() == v,
            },
    {
        let t = line.text.as_slice();
        let n = t.len();
        let s0 = crate::text::trim_start_at(t, 0, n);
        proof {
            lemma_skip_ws_bounds(t@, 0, n as int);
            lemma_skip_ws_boundary(t@, 0, n as int);
        }
        let h = first_ws_exec(t, s0, n);
        if s0 < n && t[s0] == 0x40 {
            proof {
                lemma_first_ws_boundary(t@, s0 as int, n as int);
            }
            let (rs, re) = trimmed_piece(t, h, n);
            let value = if rs == re {
                None
            } else {
                Some(substring(t, rs, re))
            };
            Some(
                Directive {
                    name: substring(t, s0, h),
                    span: line.span(self.source.file_id),
                    value,
                },
            )
        } else {
            None
        }
    }

    fn parse_let(&mut self, line: &PLine) -> (r: Option<LetBinding>)
        requires
            pline_ok(line.view_line()),
            line_fits(line.view_line()),
        ensures
            final(self).source == old(self).source,
            match let_spec(final(self).source.file_id, line.view_line()) {
                None => r is None && final(self).diagnostics@ == old(self).diagnostics@,
                Some((v, errs)) => r matches Some(b) && DocumentItem::Let(b).view_item() == v
                    && diags_match(
                    final(self).diagnostics@.subrange(
                        old(self).diagnostics@.len() as int,
                        final(self).diagnostics@.len() as int,
                    ),
                    errs,
                ),
            },
            final(self).diagnostics@.subrange(0, old(self).diagnostics@.len() as int)
                == old(self).diagnostics@,
            final(self).diagnostics@.len() >= old(self).diagnostics@.len(),
    {
        let t = line.text.as_slice();
        let n = t.len();
        let f = self.source.file_id;
        let kw: [u8; 4] = [0x6c, 0x65, 0x74, 0x20];
        proof {
            assert(kw@ =~= let_kw());
            lemma_skip_ws_bounds(t@, 0, n as int);
            lemma_skip_ws_boundary(t@, 0, n as int);
        }
        let s0 = crate::text::trim_start_at(t, 0, n);
        let ghost old_d = self.diagnostics@;
        if !matches_at_exec(t, s0, n, kw.as_slice()) {
            assert(self.diagnostics@.subrange(0, old_d.len() as int) =~= old_d);
            return None;
        }
        let r = s0 + 4;
        proof {
            assert(t@.subrange(s0 as int, s0 + 4)[3] == t@[s0 + 3]);
            lemma_boundary_after_ascii(t@, s0 + 3);
            lemma_find_byte_bounds(t@, r as int, n as int, 0x3d);
            lemma_find_byte_bounds(t@, 0, n as int, 0x3d);
        }
        match find_byte_exec(t, r, n, 0x3d) {
            None => {
                self.error("F001", "expected '=' in let binding", line.span(f));
                let (ns, ne) = trimmed_piece(t, r, n);
                proof {
                    let new_d = self.diagnostics@.subrange(old_d.len() as int, self.diagnostics@.len() as int);
                    assert(new_d[0] == self.diagnostics@.last());
                }
                Some(LetBinding { name: substring(t, ns, ne), span: line.span(f), value_span: None })
            },
            Some(q) => {
                proof {
                    lemma_boundary_after_ascii(t@, q as int);
                }
                let (ns, ne) = trimmed_piece(t, r, q);
                let eq = match find_byte_exec(t, 0, n, 0x3d) {
                    Some(x) => x,
                    None => 0,
                };
                proof {
                    assert(self.diagnostics@.subrange(old_d.len() as int, self.diagnostics@.len() as int)
                        =~= Seq::<Diagnostic>::empty());
                    assert(self.diagnostics@.subrange(0, old_d.len() as int) =~= old_d);
                }
                Some(
                    LetBinding {
                        name: substring(t, ns, ne),
                        span: line.span(f),
                        value_span: Some(SourceSpan::new(f, line.start + eq + 1, line.end)),
                    },
                )
            },
        }
    }

    fn parse_comment(&self, line: &PLine) -> (r: Option<Comment>)
        requires
            pline_ok(line.view_line()),
        ensures
            match comment_spec(self.source.file_id, line.view_line()) {
                None => r is None,
                Some(v) => r matches Some(c) && DocumentItem::Comment(c).view_item() == v,
            },
    {
        let t = line.text.as_slice();
        let n = t.len();
        let s0 = crate::text::trim_start_at(t, 0, n);
        proof {
            lemma_skip_ws_bounds(t@, 0, n as int);
        }
        if s0 < n && t[s0] == 0x23 {
            proof {
                lemma_skip_ws_boundary(t@, 0, n as int);
                lemma_boundary_after_ascii(t@, s0 as int);
                lemma_skip_ws_boundary(t@, s0 + 1, n as int);
                lemma_skip_ws_bounds(t@, s0 + 1, n as int);
            }
            let r = crate::text::trim_start_at(t, s0 + 1, n);
            Some(Comment { span: line.span(self.source.file_id), text: substring(t, r, n) })
        } else {
            None
        }
    }
}

// ---------------------------------------------------------------------------
// Symbols
/// A symbol as values: name bytes, kind, span, selection span.
pub type SymV = (Seq<u8>, SymbolKind, SourceSpan, SourceSpan);

pub open spec fn sym_view(s: Symbol) -> SymV {
    (utf8(s.name@), s.kind, s.span, s.selection_span)
}

pub open spec fn syms_view(s: Seq<Symbol>) -> Seq<SymV> {
    s.map_values(|x: Symbol| sym_view(x))
}

/// Decimal digits of `n`.
pub open spec fn decimal(n: nat) -> Seq<u8>
    decreases n,
{
    if n < 10 {
        seq![(0x30 + n) as u8]
    } else {
        decimal(n / 10) + seq![(0x30 + n % 10) as u8]
    }
}

/// Symbols of a node whose values are scalars: mapping keys and tags.
pub open spec fn node_symbols(n: NodeV) -> Seq<SymV> {
    match n {
        NodeV::Mapping { entries, .. } => entries.map_values(
            |e: EntryV| (e.key, SymbolKind::MappingKey, e.span, e.key_span),
        ),
        NodeV::Tag { name, span, .. } => seq![(name, SymbolKind::Tag, span, span)],
        _ => seq![],
    }
}

pub open spec fn item_symbols(i: DocItemV) -> Seq<SymV> {
    match i {
        DocItemV::Directive { name, span, .. } => seq![(name, SymbolKind::Directive, span, span)],
        DocItemV::Let { name, span, .. } => seq![(name, SymbolKind::Variable, span, span)],
        DocItemV::Node(n) => node_symbols(n),
        DocItemV::Comment { .. } => seq![],
    }
}

/// Symbols of the first `k` items.
pub open spec fn items_symbols(items: Seq<DocItemV>, k: int) -> Seq<SymV>
    decreases k,
{
    if k <= 0 {
        seq![]
    } else {
        items_symbols(items, k - 1) + item_symbols(items[k - 1])
    }
}

/// "document"
pub open spec fn document_word() -> Seq<u8> {
    seq![0x64u8, 0x6fu8, 0x63u8, 0x75u8, 0x6du8, 0x65u8, 0x6eu8, 0x74u8]
}

/// Symbols of document number `i` (from zero): the document, then its items.
pub open spec fn doc_symbols(d: DocV, i: nat) -> Seq<SymV> {
    seq![
        (
            document_word() + decimal(i + 1),
            SymbolKind::Document,
            d.span,
            match d.separator_span {
                Some(x) => x,
                None => d.span,
            },
        ),
    ] + items_symbols(d.items, d.items.len() as int)
}

/// Symbols of the first `k` documents.
pub open spec fn file_symbols(docs: Seq<DocV>, k: int) -> Seq<SymV>
    decreases k,
{
    if k <= 0 {
        seq![]
    } else {
        file_symbols(docs, k - 1) + doc_symbols(docs[k - 1], (k - 1) as nat)
    }
}

pub(crate) fn push_decimal(out: &mut Vec<u8>, n: usize)
    ensures
        final(out)@ == old(out)@ + decimal(n as nat),
    decreases n,
{
    if n >= 10 {
        push_decimal(out, n / 10);
    }
    out.push(0x30 + (n % 10) as u8);
    proof {
        if n < 10 {
            assert(final(out)@ =~= old(out)@ + decimal(n as nat));
        } else {
            assert(final(out)@ =~= old(out)@ + decimal(n as nat));
        }
    }
}

pub(crate) proof fn lemma_decimal_ascii(n: nat)
    ensures
        crate::text::all_ascii(decimal(n)),
    decreases n,
{
    if n >= 10 {
        lemma_decimal_ascii(n / 10);
    }
}

fn collect_node_symbols(node: &Node, symbols: &mut Vec<Symbol>)
    requires
        node.nested_leaves(),
    ensures
        syms_view(final(symbols)@) == syms_view(old(symbols)@) + node_symbols(node.view_node()),
    decreases node,
{
    let ghost start = symbols@;
    match node {
        Node::Mapping(mapping) => {
            let mut i: usize = 0;
            while i < mapping.entries.len()
                invariant
                    node.nested_leaves(),
                    *node == Node::Mapping(*mapping),
                    i <= mapping.entries@.len(),
                    syms_view(symbols@) =~= syms_view(start) + mapping.entries@.subrange(
                        0,
                        i as int,
                    ).map_values(|e: MappingEntry| e.view_entry()).map_values(
                        |e: EntryV| (e.key, SymbolKind::MappingKey, e.span, e.key_span),
                    ),
                decreases mapping.entries@.len() - i,
            {
                let entry = &mapping.entries[i];
                let ghost before = symbols@;
                symbols.push(
                    Symbol {
                        name: entry.key.clone(),
                        kind: SymbolKind::MappingKey,
                        span: entry.span,
                        selection_span: entry.key_span,
                    },
                );
                assert(opt_is_leaf(mapping.entries@[i as int].value));
                if let Some(value) = &entry.value {
                    collect_node_symbols(value, symbols);
                }
                proof {
                    assert(syms_view(symbols@) =~= syms_view(before).push(
                        (utf8(entry.key@), SymbolKind::MappingKey, entry.span, entry.key_span),
                    ));
                    assert(mapping.entries@.subrange(0, i + 1) =~= mapping.entries@.subrange(
                        0,
                        i as int,
                    ).push(*entry));
                }
                i = i + 1;
            }
            proof {
                assert(mapping.entries@.subrange(0, mapping.entries@.len() as int)
                    =~= mapping.entries@);
            }
        },
        Node::Sequence(sequence) => {
            let mut i: usize = 0;
            while i < sequence.items.len()
                invariant
                    node.nested_leaves(),
                    *node == Node::Sequence(*sequence),
                    i <= sequence.items@.len(),
                    syms_view(symbols@) =~= syms_view(start),
                decreases sequence.items@.len() - i,
            {
                let item = &sequence.items[i];
                assert(opt_is_leaf(sequence.items@[i as int].value));
                if let Some(value) = &item.value {
                    collect_node_symbols(value, symbols);
                }
                i = i + 1;
            }
        },
        Node::Tag(tag) => {
            let ghost before = symbols@;
            symbols.push(
                Symbol {
                    name: tag.name.clone(),
                    kind: SymbolKind::Tag,
                    span: tag.span,
                    selection_span: tag.span,
                },
            );
            if let Some(value) = &tag.value {
                collect_node_symbols(value, symbols);
            }
            proof {
                assert(syms_view(symbols@) =~= syms_view(before).push(
                    (utf8(tag.name@), SymbolKind::Tag, tag.span, tag.span),
                ));
            }
        },
        _ => {
            assert(syms_view(symbols@) =~= syms_view(start) + Seq::<SymV>::empty());
        },
    }
}

pub(crate) fn document_name(number: usize) -> (name: String)
    ensures
        utf8(name@) == document_word() + decimal(number as nat),
{
    let mut bytes: Vec<u8> = Vec::new();
    bytes.push(0x64);
    bytes.push(0x6f);
    bytes.push(0x63);
    bytes.push(0x75);
    bytes.push(0x6d);
    bytes.push(0x65);
    bytes.push(0x6e);
    bytes.push(0x74);
    let ghost word = bytes@;
    push_decimal(&mut bytes, number);
    proof {
        assert(word =~= document_word());
        lemma_decimal_ascii(number as nat);
        assert forall|i: int| 0 <= i < bytes@.len() implies #[trigger] crate::text::is_ascii_byte(
            bytes@[i],
        ) by {
            if i >= 8 {
                assert(bytes@[i] == decimal(number as nat)[i - 8]);
            }
        }
    }
    crate::text::ascii_string(bytes)
}

fn extract_symbols(file: &AstFile) -> (symbols: Vec<Symbol>)
    requires
        forall|i: int|
            0 <= i < file.documents@.len() ==> (#[trigger] file.documents@[i]).nodes_nested_leaves(),
    ensures
        syms_view(symbols@) == file_symbols(
            file.documents@.map_values(|d: Document| d.view_doc()),
            file.documents@.len() as int,
        ),
{
    let ghost docs = file.documents@.map_values(|d: Document| d.view_doc());
    let mut symbols: Vec<Symbol> = Vec::new();
    let mut index: usize = 0;
    while index < file.documents.len()
        invariant
            index <= file.documents@.len(),
            docs == file.documents@.map_values(|d: Document| d.view_doc()),
            forall|i: int|
                0 <= i < file.documents@.len() ==> (#[trigger] file.documents@[i]).nodes_nested_leaves(),
            syms_view(symbols@) =~= file_symbols(docs, index as int),
        decreases file.documents@.len() - index,
    {
        let document = &file.documents[index];
        assert(docs[index as int] == document.view_doc());
        let ghost before = symbols@;
        let name = document_name(index + 1);
        let selection_span = match document.separator_span {
            Some(x) => x,
            None => document.span,
        };
        symbols.push(
            Symbol { name, kind: SymbolKind::Document, span: document.span, selection_span },
        );
        let ghost after_doc = symbols@;
        let ghost items = document.items@.map_values(|i: DocumentItem| i.view_item());
        let mut j: usize = 0;
        while j < document.items.len()
            invariant
                j <= document.items@.len(),
                document.nodes_nested_leaves(),
                items == document.items@.map_values(|i: DocumentItem| i.view_item()),
                syms_view(symbols@) =~= syms_view(after_doc) + items_symbols(items, j as int),
            decreases document.items@.len() - j,
        {
            let ghost mid = symbols@;
            assert(items[j as int] == document.items@[j as int].view_item());
            match &document.items[j] {
                DocumentItem::Directive(directive) => {
                    symbols.push(
                        Symbol {
                            name: directive.name.clone(),
                            kind: SymbolKind::Directive,
                            span: directive.span,
                            selection_span: directive.span,
                        },
                    );
                    assert(syms_view(symbols@) =~= syms_view(mid).push(
                        (utf8(directive.name@), SymbolKind::Directive, directive.span, directive.span),
                    ));
                },
                DocumentItem::Let(binding) => {
                    symbols.push(
                        Symbol {
                            name: binding.name.clone(),
                            kind: SymbolKind::Variable,
                            span: binding.span,
                            selection_span: binding.span,
                        },
                    );
                    assert(syms_view(symbols@) =~= syms_view(mid).push(
                        (utf8(binding.name@), SymbolKind::Variable, binding.span, binding.span),
                    ));
                },
                DocumentItem::Node(node) => {
                    assert(document.items@[j as int] matches DocumentItem::Node(n)
                        ==> n.nested_leaves());
                    collect_node_symbols(node, &mut symbols);
                },
                DocumentItem::Comment(_) => {},
            }
            j = j + 1;
        }
        proof {
            assert(syms_view(after_doc) =~= syms_view(before).push(
                sym_view(after_doc.last()),
            ));
            assert(symbols@.len() >= 0);
        }
        index = index + 1;
    }
    symbols
}

// ---------------------------------------------------------------------------
// Entry point
/// The text with CRLF line endings turned into LF.
pub(crate) fn normalize_source(text: &str) -> (r: String)
    ensures
        utf8(r@) == crlf_to_lf(utf8(text@), 0),
{
    let b = text.as_bytes();
    proof {
        crate::text::lemma_str_valid(text@);
        crate::formatting::lemma_crlf_to_lf_valid(b@, 0);
    }
    let out = crate::formatting::crlf_to_lf_exec(b);
    crate::text::bytes_to_string(out)
}

/// What parsing `text` of file `file_id` gives: the normalized source, the documents, the
/// tokens, the symbols (none when there are none) and the parser's errors.
pub open spec fn parsed_by_fallback(
    doc: ParsedDocument,
    file_id: FileId,
    name: Seq<char>,
    text: Seq<char>,
) -> bool {
    let b = crlf_to_lf(utf8(text), 0);
    let full = SourceSpan { file_id, start: 0, end: b.len() as usize };
    let p = parse_file_spec(file_id, b);
    let spans = p.0.map_values(|d: DocV| d.span);
    let syms = file_symbols(p.0, p.0.len() as int);
    &&& doc.backend == ParserBackend::Fallback
    &&& doc.source.file_id == file_id
    &&& doc.source.name@ == name
    &&& doc.source.bytes() == b
    &&& doc.source.wf()
    &&& (doc.file matches ParsedFile::Fallback(ff) && {
        &&& ff.span == full
        &&& ff.document_spans@ == spans
        &&& ff.ast.span == full
        &&& ff.ast.documents@.map_values(|d: Document| d.view_doc()) == p.0
        &&& forall|i: int|
            0 <= i < ff.ast.documents@.len() ==> (#[trigger] ff.ast.documents@[i]).nodes_nested_leaves()
    })
    &&& doc.ranges.file == full
    &&& doc.ranges.documents@ == spans
    &&& (doc.tokens matches Some(t) && tokens_of(doc.source, t@))
    &&& (if syms.len() == 0 {
        doc.symbols is None
    } else {
        doc.symbols matches Some(s) && syms_view(s@) == syms
    })
    &&& diags_match(doc.diagnostics@, p.1)
}

pub fn parse_with_fallback(file_id: FileId, name: &str, text: &str) -> (doc: ParsedDocument)
    requires
        lexes(crlf_to_lf(utf8(text@), 0)),
        crlf_to_lf(utf8(text@), 0).len() <= isize::MAX,
    ensures
        parsed_by_fallback(doc, file_id, name@, text@),
{
    let normalized = normalize_source(text);
    let source = SourceText::new(file_id, name, normalized.as_str());
    let lexed = lex(&source);
    let mut parser = Parser::new(&source);
    let ast = parser.parse_file();
    let diagnostics = parser.diagnostics;
    proof {
        let d = diagnostics@;
        assert(d.subrange(0, 0) =~= Seq::<Diagnostic>::empty());
        assert(d.subrange(0, d.len() as int) =~= d);
    }
    let mut document_spans: Vec<SourceSpan> = Vec::new();
    let mut i: usize = 0;
    while i < ast.documents.len()
        invariant
            i <= ast.documents@.len(),
            document_spans@ =~= ast.documents@.subrange(0, i as int).map_values(
                |d: Document| d.span,
            ),
        decreases ast.documents@.len() - i,
    {
        document_spans.push(ast.documents[i].span);
        proof {
            assert(ast.documents@.subrange(0, i + 1) =~= ast.documents@.subrange(0, i as int).push(
                ast.documents@[i as int],
            ));
        }
        i = i + 1;
    }
    proof {
        assert(ast.documents@.subrange(0, ast.documents@.len() as int) =~= ast.documents@);
        let p = parse_file_spec(file_id, source.bytes());
        assert(p.0.map_values(|d: DocV| d.span) =~= ast.documents@.map_values(|d: Document| d.span))
            by {
            assert(p.0 == ast.documents@.map_values(|d: Document| d.view_doc()));
            assert forall|k: int| 0 <= k < p.0.len() implies p.0[k].span == ast.documents@[k].span by {
                assert(p.0[k] == ast.documents@[k].view_doc());
            }
        }
    }
    let symbols = extract_symbols(&ast);
    let mut range_spans: Vec<SourceSpan> = Vec::new();
    let mut j: usize = 0;
    while j < document_spans.len()
        invariant
            j <= document_spans@.len(),
            range_spans@ =~= document_spans@.subrange(0, j as int),
        decreases document_spans@.len() - j,
    {
        range_spans.push(document_spans[j]);
        j = j + 1;
    }
    proof {
        assert(document_spans@.subrange(0, document_spans@.len() as int) =~= document_spans@);
    }
    let ranges = ParsedRanges { file: ast.span, documents: range_spans };
    let file = ParsedFile::fallback(source.full_span(), document_spans, ast);
    let symbols = if symbols.len() == 0 {
        None
    } else {
        Some(symbols)
    };
    ParsedDocument {
        backend: ParserBackend::Fallback,
        source,
        file,
        ranges,
        tokens: Some(lexed.tokens),
        symbols,
        diagnostics,
    }
}

} // verus!
