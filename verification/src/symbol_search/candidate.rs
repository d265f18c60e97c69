//! What a definition shows as in a workspace symbol search, and where.
use vstd::prelude::*;
use vstd::utf8::{decode_utf8, valid_utf8};

use crate::position::{offset_position, LineIndex, Position, Range};
use crate::symbol_search::score::{score_match, score_match_exec, texts_view, trim_text, trimmed};
use crate::symbols::{path_text, Definition, DefinitionKind};
use crate::syntax::SourceSpan;
use crate::text::{
    bytes_to_string, char_boundary, concat2, find_pat, find_pat_exec, lemma_boundary_after_ascii,
    lemma_find_pat_bounds, lemma_str_valid, str_eq, substring, utf8,
};

verus! {

broadcast use vstd::utf8::encode_utf8_decode_utf8, vstd::utf8::encode_utf8_valid_utf8;

/// The kind a symbol is listed with.
#[derive(Debug, Clone, Copy, PartialEq, Eq, Structural)]
pub enum WorkspaceSymbolKind {
    Module,
    File,
    Variable,
    Key,
    Operator,
    Class,
}

/// A definition that a search lists: its shown name, kind and the word that names the kind.
pub struct SymbolCandidate {
    pub name: String,
    pub kind: WorkspaceSymbolKind,
    pub kind_label: &'static str,
}

pub open spec fn is_quote_byte(x: u8) -> bool {
    x == 0x27 || x == 0x22
}

pub open spec fn lead_quotes(b: Seq<u8>, i: int) -> int
    decreases b.len() - i,
{
    if 0 <= i < b.len() && is_quote_byte(b[i]) {
        lead_quotes(b, i + 1)
    } else {
        i
    }
}

pub open spec fn trail_quotes(b: Seq<u8>, lo: int, j: int) -> int
    decreases j - lo,
{
    if lo < j && j <= b.len() && is_quote_byte(b[j - 1]) {
        trail_quotes(b, lo, j - 1)
    } else {
        j
    }
}

/// The text without the quotes at either end (`trim_matches(['\'', '"'])`).
pub open spec fn unquoted_text(s: Seq<char>) -> Seq<char> {
    let b = utf8(s);
    let lo = lead_quotes(b, 0);
    decode_utf8(b.subrange(lo, trail_quotes(b, lo, b.len() as int)))
}

/// The name a definition is listed under: a tag with its `!`, a schema by its trimmed,
/// unquoted value.
pub open spec fn candidate_spec(d: Definition) -> Option<(Seq<char>, WorkspaceSymbolKind, Seq<char>)> {
    match d.kind {
        DefinitionKind::DocumentRoot => Some((d.name@, WorkspaceSymbolKind::Module, "document"@)),
        DefinitionKind::Import => Some((d.name@, WorkspaceSymbolKind::File, "path"@)),
        DefinitionKind::Let => Some((d.name@, WorkspaceSymbolKind::Variable, "let"@)),
        DefinitionKind::Key => Some((d.name@, WorkspaceSymbolKind::Key, "key"@)),
        DefinitionKind::Tag => Some(("!"@ + d.name@, WorkspaceSymbolKind::Operator, "tag"@)),
        DefinitionKind::Directive => if d.name@ == "@schema"@ {
            Some(
                (
                    unquoted_text(
                        trimmed(
                            match d.detail {
                                Some(x) => x@,
                                None => "@schema"@,
                            },
                        ),
                    ),
                    WorkspaceSymbolKind::Class,
                    "schema"@,
                ),
            )
        } else {
            None
        },
        DefinitionKind::Alias => None,
    }
}

fn unquote_exec(s: &str) -> (r: String)
    ensures
        r@ == unquoted_text(s@),
{
    let b = s.as_bytes();
    proof {
        lemma_str_valid(s@);
    }
    let n = b.len();
    let mut lo: usize = 0;
    while lo < n && (b[lo] == 0x27 || b[lo] == 0x22)
        invariant
            lo <= n,
            n == b@.len(),
            lead_quotes(b@, lo as int) == lead_quotes(b@, 0),
            lo > 0 ==> is_quote_byte(b@[lo - 1]),
        decreases n - lo,
    {
        lo = lo + 1;
    }
    let mut hi: usize = n;
    while hi > lo && (b[hi - 1] == 0x27 || b[hi - 1] == 0x22)
        invariant
            lo <= hi <= n,
            n == b@.len(),
            trail_quotes(b@, lo as int, hi as int) == trail_quotes(b@, lo as int, n as int),
            hi < n ==> is_quote_byte(b@[hi as int]),
        decreases hi,
    {
        hi = hi - 1;
    }
    proof {
        if lo > 0 {
            lemma_boundary_after_ascii(b@, lo - 1);
        }
    }
    let r = substring(b, lo, hi);
    proof {
        vstd::utf8::encode_utf8_decode_utf8(r@);
    }
    r
}

/// What a definition is listed as, if it is listed at all.
pub fn symbol_candidate(d: &Definition) -> (r: Option<SymbolCandidate>)
    ensures
        match candidate_spec(*d) {
            None => r is None,
            Some((name, kind, label)) => r matches Some(c) && c.name@ == name && c.kind == kind && c.kind_label@
                == label,
        },
{
    match d.kind {
        DefinitionKind::DocumentRoot => Some(
            SymbolCandidate { name: d.name.clone(), kind: WorkspaceSymbolKind::Module, kind_label: "document" },
        ),
        DefinitionKind::Import => Some(
            SymbolCandidate { name: d.name.clone(), kind: WorkspaceSymbolKind::File, kind_label: "path" },
        ),
        DefinitionKind::Let => Some(
            SymbolCandidate { name: d.name.clone(), kind: WorkspaceSymbolKind::Variable, kind_label: "let" },
        ),
        DefinitionKind::Key => Some(
            SymbolCandidate { name: d.name.clone(), kind: WorkspaceSymbolKind::Key, kind_label: "key" },
        ),
        DefinitionKind::Tag => Some(
            SymbolCandidate {
                name: concat2("!", d.name.as_str()),
                kind: WorkspaceSymbolKind::Operator,
                kind_label: "tag",
            },
        ),
        DefinitionKind::Directive => {
            if str_eq(d.name.as_str(), "@schema") {
                let raw = match &d.detail {
                    Some(x) => trim_text(x.as_str()),
                    None => trim_text("@schema"),
                };
                Some(
                    SymbolCandidate {
                        name: unquote_exec(raw.as_str()),
                        kind: WorkspaceSymbolKind::Class,
                        kind_label: "schema",
                    },
                )
            } else {
                None
            }
        },
        DefinitionKind::Alias => None,
    }
}

/// " • "
pub open spec fn bullet() -> Seq<char> {
    " • "@
}

/// The container a symbol is listed in: its file, its path, or both.
pub open spec fn scope_spec(relative: Seq<char>, d: Definition) -> Seq<char> {
    let path = decode_utf8(path_text(d.path.view_path(), d.path.view_path().len() as int));
    match d.kind {
        DefinitionKind::DocumentRoot => relative,
        DefinitionKind::Import => if relative.len() == 0 {
            "path"@
        } else {
            relative + bullet() + "path"@
        },
        _ => if relative.len() == 0 {
            path
        } else {
            relative + bullet() + path
        },
    }
}

pub open spec fn container_spec(relative: Seq<char>, d: Definition) -> Option<Seq<char>> {
    let scope = scope_spec(relative, d);
    if scope.len() == 0 {
        None
    } else {
        Some(scope)
    }
}

/// A text has no fewer bytes than characters, and no bytes only when it is empty.
proof fn lemma_utf8_len(cs: Seq<char>)
    ensures
        utf8(cs).len() >= cs.len(),
        utf8(cs).len() == 0 <==> cs.len() == 0,
    decreases cs.len(),
{
    if cs.len() > 0 {
        lemma_utf8_len(cs.drop_first());
        assert(vstd::utf8::encode_scalar(cs[0] as u32).len() >= 1);
    }
}

fn path_string(d: &Definition) -> (s: String)
    ensures
        s@ == decode_utf8(path_text(d.path.view_path(), d.path.view_path().len() as int)),
{
    let s = d.path.to_text();
    proof {
        vstd::utf8::encode_utf8_decode_utf8(s@);
    }
    s
}

pub fn container_name(relative: &str, d: &Definition) -> (r: Option<String>)
    ensures
        match container_spec(relative@, *d) {
            None => r is None,
            Some(x) => r matches Some(s) && s@ == x,
        },
{
    proof {
        lemma_utf8_len(relative@);
    }
    let scope = match d.kind {
        DefinitionKind::DocumentRoot => relative.to_owned(),
        DefinitionKind::Import => {
            if relative.as_bytes().len() == 0 {
                "path".to_owned()
            } else {
                let head = concat2(relative, " • ");
                concat2(head.as_str(), "path")
            }
        },
        _ => {
            let path = path_string(d);
            if relative.as_bytes().len() == 0 {
                path
            } else {
                let head = concat2(relative, " • ");
                concat2(head.as_str(), path.as_str())
            }
        },
    };
    proof {
        lemma_utf8_len(scope@);
    }
    if scope.as_str().as_bytes().len() == 0 {
        None
    } else {
        Some(scope)
    }
}

// ---------------------------------------------------------------------------
// Where a symbol points
/// `text.get(s..e)`: the bytes between two character boundaries of the text.
pub open spec fn text_get(b: Seq<u8>, s: int, e: int) -> Option<Seq<u8>> {
    if 0 <= s <= e <= b.len() && char_boundary(b, s) && char_boundary(b, e) {
        Some(b.subrange(s, e))
    } else {
        None
    }
}

/// The span of `pat` found in the definition's line, if it is there.
pub open spec fn found_in_line(b: Seq<u8>, span: SourceSpan, pat: Seq<u8>, shift: int, len: int) -> Option<SourceSpan> {
    match text_get(b, span.start as int, span.end as int) {
        None => None,
        Some(line) => match find_pat(line, 0, line.len() as int, pat) {
            None => None,
            Some(p) => Some(
                SourceSpan {
                    file_id: span.file_id,
                    start: (span.start + p + shift) as usize,
                    end: (span.start + p + shift + len) as usize,
                },
            ),
        },
    }
}

/// Where a listed symbol points: a schema's value, an import's path, a binding's or a
/// tag's name in its line; else the definition's selection.
pub open spec fn symbol_span_spec(d: Definition, b: Seq<u8>) -> Option<SourceSpan> {
    let name = utf8(d.name@);
    match d.kind {
        DefinitionKind::Directive if d.name@ == "@schema"@ => match d.detail {
            None => None,
            Some(x) => {
                let v = utf8(trimmed(x@));
                found_in_line(b, d.span, v, 0, v.len() as int)
            },
        },
        DefinitionKind::Import => found_in_line(b, d.span, name, 0, name.len() as int),
        DefinitionKind::Let => if d.span.start + 4 + name.len() <= usize::MAX {
            Some(
                SourceSpan {
                    file_id: d.span.file_id,
                    start: (d.span.start + 4) as usize,
                    end: (d.span.start + 4 + name.len()) as usize,
                },
            )
        } else {
            None
        },
        DefinitionKind::Tag => found_in_line(b, d.span, seq![0x21u8] + name, 1, name.len() as int),
        _ => Some(d.selection_span),
    }
}

fn found_in_line_exec(text: &str, span: SourceSpan, pat: &[u8], shift: usize, len: usize) -> (r: Option<SourceSpan>)
    requires
        shift + len <= pat@.len(),
    ensures
        r == found_in_line(utf8(text@), span, pat@, shift as int, len as int),
{
    let b = text.as_bytes();
    if span.start > span.end || span.end > b.len() || !crate::syntax::is_boundary(b, span.start)
        || !crate::syntax::is_boundary(b, span.end) {
        return None;
    }
    let ghost line = b@.subrange(span.start as int, span.end as int);
    let mut piece: Vec<u8> = Vec::new();
    crate::text::push_range(&mut piece, b, span.start, span.end);
    assert(piece@ =~= line);
    match find_pat_exec(piece.as_slice(), 0, piece.len(), pat) {
        None => None,
        Some(p) => {
            proof {
                lemma_find_pat_bounds(line, 0, line.len() as int, pat@);
            }
            Some(SourceSpan::new(span.file_id, span.start + p + shift, span.start + p + shift + len))
        },
    }
}

/// Where a listed symbol points, inside `text`.
pub fn symbol_span(d: &Definition, text: &str) -> (r: Option<SourceSpan>)
    ensures
        r == symbol_span_spec(*d, utf8(text@)),
{
    let name = d.name.as_str().as_bytes();
    match d.kind {
        DefinitionKind::Directive => {
            if str_eq(d.name.as_str(), "@schema") {
                match &d.detail {
                    None => None,
                    Some(x) => {
                        let v = trim_text(x.as_str());
                        let vb = v.as_str().as_bytes();
                        found_in_line_exec(text, d.span, vb, 0, vb.len())
                    },
                }
            } else {
                Some(d.selection_span)
            }
        },
        DefinitionKind::Import => found_in_line_exec(text, d.span, name, 0, name.len()),
        DefinitionKind::Let => {
            if d.span.start > usize::MAX - 4 || name.len() > usize::MAX - 4 - d.span.start {
                None
            } else {
                Some(SourceSpan::new(d.span.file_id, d.span.start + 4, d.span.start + 4 + name.len()))
            }
        },
        DefinitionKind::Tag => {
            let mut needle: Vec<u8> = Vec::new();
            needle.push(0x21);
            crate::text::push_range(&mut needle, name, 0, name.len());
            proof {
                assert(name@.subrange(0, name@.len() as int) =~= name@);
                assert(needle@ =~= seq![0x21u8] + name@);
            }
            found_in_line_exec(text, d.span, needle.as_slice(), 1, name.len())
        },
        _ => Some(d.selection_span),
    }
}

// ---------------------------------------------------------------------------
// A definition as a search result
/// A symbol that a search found: name, kind, range, container and score.
pub struct SymbolMatch {
    pub name: String,
    pub kind: WorkspaceSymbolKind,
    pub range: Range,
    pub container_name: Option<String>,
    pub score: u32,
}

pub open spec fn opt_chars(s: Option<String>) -> Option<Seq<char>> {
    match s {
        Some(x) => Some(x@),
        None => None,
    }
}

/// A symbol match as values.
pub open spec fn match_view(m: SymbolMatch) -> (Seq<char>, WorkspaceSymbolKind, Range, Option<Seq<char>>, u32) {
    (m.name@, m.kind, m.range, opt_chars(m.container_name), m.score)
}

/// The texts a query is matched against: name, kind word, file, path and detail.
pub open spec fn searchable_spec(name: Seq<char>, label: Seq<char>, relative: Seq<char>, d: Definition) -> Seq<Seq<char>> {
    seq![
        name,
        label,
        relative,
        decode_utf8(path_text(d.path.view_path(), d.path.view_path().len() as int)),
        match d.detail {
            Some(x) => x@,
            None => Seq::<char>::empty(),
        },
    ]
}

/// The range of a span in a text, when both ends are positions.
pub open spec fn range_of(b: Seq<u8>, span: SourceSpan) -> Option<Range> {
    if span.start > span.end {
        None
    } else {
        match (offset_position(b, span.start), offset_position(b, span.end)) {
            (Ok(s), Ok(e)) => Some(Range { start: s, end: e }),
            _ => None,
        }
    }
}

/// The search result for a definition of a file with text `text`, for a normalized query.
pub open spec fn symbol_match_spec(text: Seq<char>, d: Definition, relative: Seq<char>, query: Seq<char>) -> Option<
    (Seq<char>, WorkspaceSymbolKind, Range, Option<Seq<char>>, u32),
> {
    match candidate_spec(d) {
        None => None,
        Some((name, kind, label)) => match score_match(query, searchable_spec(name, label, relative, d)) {
            None => None,
            Some(score) => match symbol_span_spec(d, utf8(text)) {
                None => None,
                Some(span) => match range_of(utf8(text), span) {
                    None => None,
                    Some(range) => Some((name, kind, range, container_spec(relative, d), score)),
                },
            },
        },
    }
}

pub fn workspace_symbol_from_definition(text: &str, d: &Definition, relative: &str, query: &str) -> (r: Option<
    SymbolMatch,
>)
    ensures
        match symbol_match_spec(text@, *d, relative@, query@) {
            None => r is None,
            Some(v) => r matches Some(m) && match_view(m) == v,
        },
{
    let candidate = match symbol_candidate(d) {
        Some(c) => c,
        None => {
            return None;
        },
    };
    let mut searchable: Vec<String> = Vec::new();
    searchable.push(candidate.name.clone());
    searchable.push(candidate.kind_label.to_owned());
    searchable.push(relative.to_owned());
    searchable.push(path_string(d));
    searchable.push(
        match &d.detail {
            Some(x) => x.clone(),
            None => String::new(),
        },
    );
    proof {
        assert(texts_view(searchable@) =~= searchable_spec(candidate.name@, candidate.kind_label@, relative@, *d));
    }
    let score = match score_match_exec(query, &searchable) {
        Some(s) => s,
        None => {
            return None;
        },
    };
    let span = match symbol_span(d, text) {
        Some(s) => s,
        None => {
            return None;
        },
    };
    let index = LineIndex::new(text);
    let range = match index.span_to_range(text, span) {
        Ok(r) => r,
        Err(_) => {
            return None;
        },
    };
    let container = container_name(relative, d);
    Some(SymbolMatch { name: candidate.name, kind: candidate.kind, range, container_name: container, score })
}

} // verus!
