//! Navigation across the workspace: the files of a workspace parsed with their definitions,
//! where a definition is shown, how a static reference resolves through aliases and let
//! bindings, and "go to implementation".
use vstd::prelude::*;
use vstd::utf8::{decode_utf8, valid_utf8};

use crate::ast::{DocItemV, DocV, Document, DocumentItem, EntryV, ItemV, LeafV, MappingEntry, Node, NodeV, ScalarKind};
use crate::code_actions::common::source_slice;
use crate::navigation::{alias_span, contains, import_like, opt_contains, target_of, target_span};
use crate::config::LumalsConfig;
use crate::formatting::crlf_to_lf;
use crate::imports::{guarded_import_spec, resolve_guarded_import, strings_view};
use crate::lexer::lexes;
use crate::navigation::{
    docs_targets, ident_path, identifier_path_at_span, implementation_candidates, targets_view, trimmed_span,
    IdentifierPath, ImplementationTarget, TargetV,
};
use crate::parser::fallback::parse_file_spec;
use crate::parser::parse_fallback;
use crate::position::{offset_position, LineIndex, Range};
use crate::semantic::{defs_view, file_defs, trim_range, unquoted, SemanticDocument};
use crate::symbols::{path_text, DefV, Definition, DefinitionKind, SegV};
use crate::syntax::{FileId, ParsedFile, SourceSpan, SourceText};
use crate::text::{
    bytes_eq, char_boundary, find_pat, find_pat_exec, lemma_find_pat_bounds, lemma_rfind_pat_bounds,
    lemma_str_valid, rfind_pat, rfind_pat_exec, str_eq, utf8,
};

verus! {

broadcast use vstd::utf8::encode_utf8_decode_utf8;

// ---------------------------------------------------------------------------
// The files of a workspace

/// A file of the workspace: its URI, text and file id.
pub struct FileV {
    pub uri: Seq<char>,
    pub text: Seq<char>,
    pub file_id: FileId,
}

pub open spec fn file_v(t: (String, String, FileId)) -> FileV {
    FileV { uri: t.0@, text: t.1@, file_id: t.2 }
}

pub open spec fn files_v(v: Seq<(String, String, FileId)>) -> Seq<FileV> {
    v.map_values(|t: (String, String, FileId)| file_v(t))
}

/// The text with CR LF turned into LF, as the parser reads it.
pub open spec fn norm_of(f: FileV) -> Seq<u8> {
    crlf_to_lf(utf8(f.text), 0)
}

pub open spec fn docs_of(f: FileV) -> Seq<DocV> {
    parse_file_spec(f.file_id, norm_of(f)).0
}

/// The definitions of a file, in document order.
pub open spec fn defs_of(f: FileV) -> Seq<DefV> {
    file_defs(docs_of(f), docs_of(f).len() as int)
}

/// The span of a file's first document, or of the whole file when it has none.
pub open spec fn root_of(f: FileV) -> SourceSpan {
    if docs_of(f).len() > 0 {
        docs_of(f)[0].span
    } else {
        SourceSpan { file_id: f.file_id, start: 0, end: norm_of(f).len() as usize }
    }
}

/// The file can be parsed: its text lexes and fits.
pub open spec fn lexable(f: FileV) -> bool {
    lexes(norm_of(f)) && norm_of(f).len() <= isize::MAX
}

/// The span of a file's root stands at positions of its text.
pub open spec fn root_ok(f: FileV) -> bool {
    span_range(utf8(f.text), root_of(f)) is Some
}

// ---------------------------------------------------------------------------
// Locations

/// A location: a URI and a range in its text.
#[derive(Debug, Clone, PartialEq, Eq)]
pub struct Location {
    pub uri: String,
    pub range: Range,
}

pub type LocV = (Seq<char>, Range);

pub open spec fn loc_view(l: Location) -> LocV {
    (l.uri@, l.range)
}

pub open spec fn locs_view(v: Seq<Location>) -> Seq<LocV> {
    v.map_values(|l: Location| loc_view(l))
}

/// What `LineIndex::span_to_range` answers for a span of `b`, when it answers.
pub open spec fn span_range(b: Seq<u8>, s: SourceSpan) -> Option<Range> {
    if s.start > s.end {
        None
    } else {
        match (offset_position(b, s.start), offset_position(b, s.end)) {
            (Ok(x), Ok(y)) => Some(Range { start: x, end: y }),
            _ => None,
        }
    }
}

/// `b[s..e]`, when both ends are in bounds at character boundaries.
pub open spec fn raw_slice(b: Seq<u8>, s: int, e: int) -> Option<Seq<u8>> {
    if 0 <= s <= e <= b.len() && char_boundary(b, s) && char_boundary(b, e) {
        Some(b.subrange(s, e))
    } else {
        None
    }
}

pub open spec fn at(file_id: FileId, s: int, e: int) -> SourceSpan {
    SourceSpan { file_id, start: s as usize, end: e as usize }
}

/// The name and the unquoted, trimmed text of a value.
pub open spec fn normalized_name(v: Seq<u8>) -> Seq<u8> {
    let (s, e) = trim_range(v, 0, v.len() as int);
    let t = v.subrange(s, e);
    let (qs, qe) = unquoted(t, 0, t.len() as int);
    t.subrange(qs, qe)
}

/// Where a definition is shown in the text `b` of its file: a let binding's name after
/// `let `, an alias's last occurrence in its line, a directive's trimmed value in its line,
/// else its selection span.
pub open spec fn refined(b: Seq<u8>, d: DefV) -> SourceSpan {
    let f = d.span.file_id;
    let s = d.span.start as int;
    match d.kind {
        DefinitionKind::Let => if s + 4 + d.name.len() <= usize::MAX {
            at(f, s + 4, s + 4 + d.name.len())
        } else {
            d.selection_span
        },
        DefinitionKind::Alias => match raw_slice(b, s, d.span.end as int) {
            Some(line) => match rfind_pat(line, 0, line.len() as int, d.name) {
                Some(q) => at(f, s + q, s + q + d.name.len()),
                None => d.selection_span,
            },
            None => d.selection_span,
        },
        DefinitionKind::Directive => match d.detail {
            Some(det) => {
                let (ts, te) = trim_range(det, 0, det.len() as int);
                let t = det.subrange(ts, te);
                match raw_slice(b, s, d.span.end as int) {
                    Some(line) => match find_pat(line, 0, line.len() as int, t) {
                        Some(q) => at(f, s + q, s + q + t.len()),
                        None => d.selection_span,
                    },
                    None => d.selection_span,
                }
            },
            None => d.selection_span,
        },
        _ => d.selection_span,
    }
}

/// The location of a definition of file `f`, when its span converts.
pub open spec fn def_loc(f: FileV, d: DefV) -> Option<LocV> {
    match span_range(utf8(f.text), refined(utf8(f.text), d)) {
        Some(r) => Some((f.uri, r)),
        None => None,
    }
}

/// Which definitions a search takes.
pub enum QueryV {
    KindName(DefinitionKind, Seq<u8>),
    Name(Seq<u8>),
    KeyPath(Seq<u8>),
    DirectiveValue(Seq<u8>, Seq<u8>),
}

pub open spec fn query_hit(q: QueryV, d: DefV) -> bool {
    match q {
        QueryV::KindName(k, n) => d.kind == k && d.name == n,
        QueryV::Name(n) => d.name == n,
        QueryV::KeyPath(p) => d.kind == DefinitionKind::Key && path_text(d.path, d.path.len() as int) == p,
        QueryV::DirectiveValue(dn, v) => d.kind == DefinitionKind::Directive && d.name == dn && (d.detail matches Some(
            det,
        ) && normalized_name(det) == v),
    }
}

/// The locations of the first `k` definitions that the search takes.
pub open spec fn query_locs(f: FileV, defs: Seq<DefV>, q: QueryV, k: int) -> Seq<LocV>
    decreases k,
{
    if k <= 0 {
        seq![]
    } else {
        query_locs(f, defs, q, k - 1) + if query_hit(q, defs[k - 1]) {
            match def_loc(f, defs[k - 1]) {
                Some(l) => seq![l],
                None => seq![],
            }
        } else {
            seq![]
        }
    }
}

/// The locations the search takes in the first `k` files.
pub open spec fn corpus_locs(fs: Seq<FileV>, q: QueryV, k: int) -> Seq<LocV>
    decreases k,
{
    if k <= 0 {
        seq![]
    } else {
        corpus_locs(fs, q, k - 1) + query_locs(fs[k - 1], defs_of(fs[k - 1]), q, defs_of(fs[k - 1]).len() as int)
    }
}

// ---------------------------------------------------------------------------
// Static references

/// The first definition from `i` on of this kind and name.
pub open spec fn first_def(defs: Seq<DefV>, kind: DefinitionKind, name: Seq<u8>, i: int) -> Option<DefV>
    decreases defs.len() - i,
{
    if i < 0 || i >= defs.len() {
        None
    } else if defs[i].kind == kind && defs[i].name == name {
        Some(defs[i])
    } else {
        first_def(defs, kind, name, i + 1)
    }
}

pub open spec fn is_digit(c: u8) -> bool {
    0x30 <= c <= 0x39
}

pub open spec fn dec_value(b: Seq<u8>, k: int) -> int
    decreases k,
{
    if k <= 0 {
        0
    } else {
        dec_value(b, k - 1) * 10 + (b[k - 1] - 0x30)
    }
}

/// The digits of an unsigned number: without one leading `+`.
pub open spec fn unsigned_digits(b: Seq<u8>) -> Seq<u8> {
    if b.len() > 0 && b[0] == 0x2b {
        b.subrange(1, b.len() as int)
    } else {
        b
    }
}

/// At least one digit and nothing else, within range.
pub open spec fn parse_digits(d: Seq<u8>) -> Option<usize> {
    if d.len() == 0 || exists|i: int| 0 <= i < d.len() && !is_digit(#[trigger] d[i]) {
        None
    } else if dec_value(d, d.len() as int) > usize::MAX {
        None
    } else {
        Some(dec_value(d, d.len() as int) as usize)
    }
}

/// `str::parse::<usize>`: an optional `+`, then at least one digit and nothing else, within
/// range.
pub open spec fn parse_usize(b: Seq<u8>) -> Option<usize> {
    parse_digits(unsigned_digits(b))
}

pub open spec fn dots() -> Seq<u8> {
    seq![0x2eu8, 0x2eu8]
}

/// A let binding's recorded value span `start..end`, read back.
pub open spec fn parse_range(det: Seq<u8>) -> Option<(usize, usize)> {
    match find_pat(det, 0, det.len() as int, dots()) {
        None => None,
        Some(p) => match (parse_usize(det.subrange(0, p)), parse_usize(det.subrange(p + 2, det.len() as int))) {
            (Some(s), Some(e)) => Some((s, e)),
            _ => None,
        },
    }
}

/// The text of a value span of the current file, trimmed.
pub open spec fn value_text(cur: FileV, s: usize, e: usize) -> Option<Seq<u8>> {
    let raw = utf8(cur.text);
    match trimmed_span(raw, cur.file_id, SourceSpan { file_id: cur.file_id, start: s, end: e }) {
        None => None,
        Some(ts) => raw_slice(raw, ts.start as int, ts.end as int),
    }
}

/// The path of a value written `${path}`.
pub open spec fn static_path(vt: Seq<u8>) -> Option<Seq<Seq<u8>>> {
    let (a, b) = trim_range(vt, 0, vt.len() as int);
    let t = vt.subrange(a, b);
    if t.len() >= 3 && t[0] == 0x24 && t[1] == 0x7b && t[t.len() - 1] == 0x7d {
        let inner = t.subrange(2, t.len() - 1);
        let (c, d) = trim_range(inner, 0, inner.len() as int);
        let i2 = inner.subrange(c, d);
        match ident_path(i2, FileId(0), SourceSpan { file_id: FileId(0), start: 0, end: i2.len() as usize }, 0) {
            Some((_, p)) => Some(p),
            None => None,
        }
    } else {
        None
    }
}

/// The file and key path that an identifier of the current file stands for: an alias's
/// import target, or where the `${...}` value of a let binding leads, followed for at most
/// the configured depth.
pub open spec fn static_target(
    cur: FileV,
    defs: Seq<DefV>,
    folders: Seq<Seq<char>>,
    config: LumalsConfig,
    ident: Seq<u8>,
    depth: int,
) -> Option<(Seq<char>, Seq<Seq<u8>>)>
    decreases config.max_resolve_depth - depth,
{
    if depth < 0 || depth >= config.max_resolve_depth {
        None
    } else {
        let via_alias = match first_def(defs, DefinitionKind::Alias, ident, 0) {
            Some(a) => match a.detail {
                Some(t) => match guarded_import_spec(cur.uri, decode_utf8(t), folders, config) {
                    Ok(u) => Some(u),
                    Err(_) => None,
                },
                None => None,
            },
            None => None,
        };
        match via_alias {
            Some(u) => Some((u, seq![])),
            None => match first_def(defs, DefinitionKind::Let, ident, 0) {
                None => None,
                Some(b) => match b.detail {
                    None => None,
                    Some(det) => match parse_range(det) {
                        None => None,
                        Some((s, e)) => match value_text(cur, s, e) {
                            None => None,
                            Some(vt) => match static_path(vt) {
                                None => None,
                                Some(segs) => match static_target(cur, defs, folders, config, segs[0], depth + 1) {
                                    None => None,
                                    Some((u, pre)) => Some((u, pre + segs.drop_first())),
                                },
                            },
                        },
                    },
                },
            },
        }
    }
}

/// The first file from `i` on with this URI.
pub open spec fn file_named(fs: Seq<FileV>, u: Seq<char>, i: int) -> Option<FileV>
    decreases fs.len() - i,
{
    if i < 0 || i >= fs.len() {
        None
    } else if fs[i].uri == u {
        Some(fs[i])
    } else {
        file_named(fs, u, i + 1)
    }
}

/// `document[1]` followed by `.segment` for each segment.
pub open spec fn dotted(path: Seq<Seq<u8>>, k: int) -> Seq<u8>
    decreases k,
{
    if k <= 0 {
        crate::symbols::lit("document[1]")
    } else {
        dotted(path, k - 1) + seq![0x2eu8] + path[k - 1]
    }
}

pub open spec fn root_loc(f: FileV) -> Seq<LocV> {
    match span_range(utf8(f.text), root_of(f)) {
        Some(r) => seq![(f.uri, r)],
        None => seq![],
    }
}

/// Where a key path leads in the file with URI `u`: its root for the empty path, else the
/// keys with that path.
pub open spec fn path_target_locs(fs: Seq<FileV>, u: Seq<char>, path: Seq<Seq<u8>>) -> Seq<LocV> {
    match file_named(fs, u, 0) {
        None => seq![],
        Some(f) => if path.len() == 0 {
            root_loc(f)
        } else {
            query_locs(f, defs_of(f), QueryV::KeyPath(dotted(path, path.len() as int)), defs_of(f).len() as int)
        },
    }
}

/// Where one implementation target leads.
pub open spec fn impl_locs(
    fs: Seq<FileV>,
    cur: FileV,
    folders: Seq<Seq<char>>,
    config: LumalsConfig,
    t: TargetV,
) -> Seq<LocV> {
    match t {
        TargetV::Import(target) => match guarded_import_spec(cur.uri, decode_utf8(target), folders, config) {
            Ok(u) => match file_named(fs, u, 0) {
                Some(f) => root_loc(f),
                None => seq![],
            },
            Err(_) => seq![],
        },
        TargetV::Reference(segs) => if segs.len() == 0 {
            seq![]
        } else {
            match static_target(cur, defs_of(cur), folders, config, segs[0], 0) {
                None => seq![],
                Some((u, pre)) => path_target_locs(fs, u, pre + segs.drop_first()),
            }
        },
    }
}

/// The first target from `i` on that leads somewhere, and where.
pub open spec fn first_impl(
    fs: Seq<FileV>,
    cur: FileV,
    folders: Seq<Seq<char>>,
    config: LumalsConfig,
    ts: Seq<TargetV>,
    i: int,
) -> Seq<LocV>
    decreases ts.len() - i,
{
    if i < 0 || i >= ts.len() {
        seq![]
    } else if impl_locs(fs, cur, folders, config, ts[i]).len() > 0 {
        impl_locs(fs, cur, folders, config, ts[i])
    } else {
        first_impl(fs, cur, folders, config, ts, i + 1)
    }
}

/// The workspace that navigation searches: the current file, then the others.
pub open spec fn nav_corpus(cur: FileV, files: Seq<FileV>) -> Seq<FileV> {
    seq![cur] + files
}

/// Every file of the workspace parses and its root converts.
pub open spec fn corpus_ok(fs: Seq<FileV>) -> bool {
    forall|i: int| 0 <= i < fs.len() ==> lexable(#[trigger] fs[i]) && root_ok(fs[i])
}

pub open spec fn goto_implementation_spec(
    cur: FileV,
    files: Seq<FileV>,
    offset: int,
    folders: Seq<Seq<char>>,
    config: LumalsConfig,
) -> Seq<LocV> {
    let docs = docs_of(cur);
    first_impl(
        nav_corpus(cur, files),
        cur,
        folders,
        config,
        docs_targets(docs, norm_of(cur), cur.file_id, offset, docs.len() as int),
        0,
    )
}

// ---------------------------------------------------------------------------
// Executable parts

/// A parsed file of the workspace.
pub(crate) struct Entry {
    pub(crate) uri: String,
    pub(crate) text: String,
    pub(crate) file_id: FileId,
    pub(crate) defs: Vec<Definition>,
    pub(crate) root: SourceSpan,
}

pub(crate) open spec fn entry_ok(e: Entry, f: FileV) -> bool {
    &&& e.uri@ == f.uri
    &&& e.text@ == f.text
    &&& e.file_id == f.file_id
    &&& defs_view(e.defs@) == defs_of(f)
    &&& e.root == root_of(f)
}

pub(crate) open spec fn entries_ok(es: Seq<Entry>, fs: Seq<FileV>) -> bool {
    &&& es.len() == fs.len()
    &&& forall|i: int| 0 <= i < fs.len() ==> entry_ok(#[trigger] es[i], fs[i])
}

pub(crate) fn build_entry(uri: &str, text: &str, file_id: FileId) -> (e: Entry)
    requires
        lexable(FileV { uri: uri@, text: text@, file_id }),
    ensures
        entry_ok(e, FileV { uri: uri@, text: text@, file_id }),
{
    let parsed = parse_fallback(file_id, uri, text);
    let ParsedFile::Fallback(ff) = &parsed.file;
    let semantic = SemanticDocument::from_ast(&ff.ast);
    let root = if ff.document_spans.len() > 0 {
        ff.document_spans[0]
    } else {
        ff.span
    };
    proof {
        let f = FileV { uri: uri@, text: text@, file_id };
        if ff.document_spans@.len() > 0 {
            assert(ff.document_spans@[0] == docs_of(f)[0].span);
        }
    }
    Entry { uri: uri.to_owned(), text: text.to_owned(), file_id, defs: semantic.definitions, root }
}

pub(crate) fn span_range_exec(text: &str, span: SourceSpan) -> (r: Option<Range>)
    ensures
        r == span_range(utf8(text@), span),
{
    let index = LineIndex::new(text);
    match index.span_to_range(text, span) {
        Ok(r) => Some(r),
        Err(_) => None,
    }
}

pub(crate) fn raw_slice_ok(b: &[u8], s: usize, e: usize) -> (r: bool)
    ensures
        r == (raw_slice(b@, s as int, e as int) is Some),
{
    s <= e && e <= b.len() && crate::syntax::is_boundary(b, s) && crate::syntax::is_boundary(b, e)
}

fn refined_exec(text: &str, d: &Definition) -> (r: SourceSpan)
    ensures
        r == refined(utf8(text@), d.view_def()),
{
    let b = text.as_bytes();
    let f = d.span.file_id;
    let s = d.span.start;
    let name = d.name.as_str().as_bytes();
    match d.kind {
        DefinitionKind::Let => {
            if s <= usize::MAX - 4 && name.len() <= usize::MAX - 4 - s {
                SourceSpan::new(f, s + 4, s + 4 + name.len())
            } else {
                d.selection_span
            }
        },
        DefinitionKind::Alias => {
            if !raw_slice_ok(b, s, d.span.end) {
                return d.selection_span;
            }
            let line = vstd::slice::slice_subrange(b, s, d.span.end);
            proof {
                lemma_rfind_pat_bounds(line@, 0, line@.len() as int, name@);
            }
            match rfind_pat_exec(line, 0, line.len(), name) {
                Some(q) => SourceSpan::new(f, s + q, s + q + name.len()),
                None => d.selection_span,
            }
        },
        DefinitionKind::Directive => {
            match &d.detail {
                None => d.selection_span,
                Some(det) => {
                    let db = det.as_str().as_bytes();
                    let ts = crate::text::trim_start_at(db, 0, db.len());
                    let te = crate::text::trim_end_at(db, ts, db.len());
                    let t = vstd::slice::slice_subrange(db, ts, te);
                    if !raw_slice_ok(b, s, d.span.end) {
                        return d.selection_span;
                    }
                    let line = vstd::slice::slice_subrange(b, s, d.span.end);
                    proof {
                        lemma_find_pat_bounds(line@, 0, line@.len() as int, t@);
                    }
                    match find_pat_exec(line, 0, line.len(), t) {
                        Some(q) => SourceSpan::new(f, s + q, s + q + t.len()),
                        None => d.selection_span,
                    }
                },
            }
        },
        _ => d.selection_span,
    }
}

fn def_loc_exec(uri: &str, text: &str, d: &Definition) -> (r: Option<Location>)
    ensures
        match def_loc(FileV { uri: uri@, text: text@, file_id: FileId(0) }, d.view_def()) {
            Some(l) => r matches Some(x) && loc_view(x) == l,
            None => r is None,
        },
{
    let span = refined_exec(text, d);
    match span_range_exec(text, span) {
        Some(range) => Some(Location { uri: uri.to_owned(), range }),
        None => None,
    }
}

proof fn lemma_def_loc_file_id(f: FileV, g: FileV, d: DefV)
    requires
        f.uri == g.uri,
        f.text == g.text,
    ensures
        def_loc(f, d) == def_loc(g, d),
{
}

/// A search over definitions, with its texts as bytes.
enum Query {
    KindName(DefinitionKind, Vec<u8>),
    Name(Vec<u8>),
    KeyPath(Vec<u8>),
    DirectiveValue(Vec<u8>, Vec<u8>),
}

spec fn query_v(q: Query) -> QueryV {
    match q {
        Query::KindName(k, n) => QueryV::KindName(k, n@),
        Query::Name(n) => QueryV::Name(n@),
        Query::KeyPath(p) => QueryV::KeyPath(p@),
        Query::DirectiveValue(d, v) => QueryV::DirectiveValue(d@, v@),
    }
}

pub(crate) fn normalized_name_exec(v: &[u8]) -> (r: Vec<u8>)
    ensures
        r@ == normalized_name(v@),
{
    let s = crate::text::trim_start_at(v, 0, v.len());
    let e = crate::text::trim_end_at(v, s, v.len());
    let t = vstd::slice::slice_subrange(v, s, e);
    let n = t.len();
    let (qs, qe) = if n >= 2 && ((t[0] == 0x27 && t[n - 1] == 0x27) || (t[0] == 0x22 && t[n - 1] == 0x22)) {
        (1, n - 1)
    } else {
        (0, n)
    };
    let mut out: Vec<u8> = Vec::new();
    crate::text::push_range(&mut out, t, qs, qe);
    assert(out@ =~= normalized_name(v@));
    out
}

fn query_hit_exec(q: &Query, d: &Definition) -> (r: bool)
    ensures
        r == query_hit(query_v(*q), d.view_def()),
{
    let name = d.name.as_str().as_bytes();
    match q {
        Query::KindName(k, n) => d.kind == *k && bytes_eq(name, n.as_slice()),
        Query::Name(n) => bytes_eq(name, n.as_slice()),
        Query::KeyPath(p) => {
            if d.kind != DefinitionKind::Key {
                return false;
            }
            let text = d.path.to_text();
            bytes_eq(text.as_str().as_bytes(), p.as_slice())
        },
        Query::DirectiveValue(dn, v) => {
            if d.kind != DefinitionKind::Directive || !bytes_eq(name, dn.as_slice()) {
                return false;
            }
            match &d.detail {
                None => false,
                Some(det) => {
                    let nv = normalized_name_exec(det.as_str().as_bytes());
                    bytes_eq(nv.as_slice(), v.as_slice())
                },
            }
        },
    }
}

pub(crate) fn push_loc(out: &mut Vec<Location>, l: Location)
    ensures
        locs_view(final(out)@) == locs_view(old(out)@).push(loc_view(l)),
{
    let ghost before = locs_view(out@);
    out.push(l);
    assert(locs_view(out@) =~= before.push(loc_view(l)));
}

fn query_locs_exec(out: &mut Vec<Location>, e: &Entry, q: &Query, Ghost(f): Ghost<FileV>)
    requires
        entry_ok(*e, f),
    ensures
        locs_view(final(out)@) == locs_view(old(out)@) + query_locs(f, defs_of(f), query_v(*q), defs_of(f).len() as int),
{
    let ghost start = locs_view(out@);
    let ghost defs = defs_of(f);
    let mut k: usize = 0;
    while k < e.defs.len()
        invariant
            entry_ok(*e, f),
            defs == defs_of(f),
            k <= e.defs@.len(),
            e.defs@.len() == defs.len(),
            locs_view(out@) == start + query_locs(f, defs, query_v(*q), k as int),
        decreases e.defs@.len() - k,
    {
        let d = &e.defs[k];
        assert(defs[k as int] == d.view_def());
        if query_hit_exec(q, d) {
            let l = def_loc_exec(e.uri.as_str(), e.text.as_str(), d);
            proof {
                lemma_def_loc_file_id(f, FileV { uri: e.uri@, text: e.text@, file_id: FileId(0) }, d.view_def());
            }
            match l {
                Some(x) => {
                    push_loc(out, x);
                    assert(locs_view(out@) =~= start + query_locs(f, defs, query_v(*q), k + 1));
                },
                None => {
                    assert(locs_view(out@) =~= start + query_locs(f, defs, query_v(*q), k + 1));
                },
            }
        } else {
            assert(locs_view(out@) =~= start + query_locs(f, defs, query_v(*q), k + 1));
        }
        k = k + 1;
    }
}

pub(crate) fn first_def_exec(defs: &Vec<Definition>, kind: DefinitionKind, name: &[u8]) -> (r: Option<usize>)
    ensures
        match first_def(defs_view(defs@), kind, name@, 0) {
            Some(d) => r matches Some(i) && i < defs@.len() && defs@[i as int].view_def() == d,
            None => r is None,
        },
{
    let ghost dv = defs_view(defs@);
    let mut i: usize = 0;
    while i < defs.len()
        invariant
            i <= defs@.len(),
            dv == defs_view(defs@),
            first_def(dv, kind, name@, i as int) == first_def(dv, kind, name@, 0),
        decreases defs@.len() - i,
    {
        assert(dv[i as int] == defs@[i as int].view_def());
        if defs[i].kind == kind && bytes_eq(defs[i].name.as_str().as_bytes(), name) {
            return Some(i);
        }
        i = i + 1;
    }
    None
}

proof fn lemma_dec_mono(b: Seq<u8>, j: int, k: int)
    requires
        0 <= j <= k <= b.len(),
        forall|i: int| 0 <= i < b.len() ==> is_digit(#[trigger] b[i]),
    ensures
        dec_value(b, j) <= dec_value(b, k),
        dec_value(b, k) >= 0,
    decreases k - j,
{
    if k > 0 {
        assert(is_digit(b[k - 1]));
        lemma_dec_nonneg(b, k - 1);
    }
    if j < k {
        lemma_dec_mono(b, j, k - 1);
        lemma_dec_nonneg(b, k - 1);
        assert(dec_value(b, k - 1) * 10 >= dec_value(b, k - 1)) by (nonlinear_arith)
            requires
                dec_value(b, k - 1) >= 0,
        ;
    }
}

proof fn lemma_dec_nonneg(b: Seq<u8>, k: int)
    requires
        0 <= k <= b.len(),
        forall|i: int| 0 <= i < b.len() ==> is_digit(#[trigger] b[i]),
    ensures
        dec_value(b, k) >= 0,
    decreases k,
{
    if k > 0 {
        lemma_dec_nonneg(b, k - 1);
        assert(is_digit(b[k - 1]));
        assert(dec_value(b, k - 1) * 10 >= 0) by (nonlinear_arith)
            requires
                dec_value(b, k - 1) >= 0,
        ;
    }
}

fn parse_usize_exec(b: &[u8]) -> (r: Option<usize>)
    ensures
        r == parse_usize(b@),
{
    let lo: usize = if b.len() > 0 && b[0] == 0x2b { 1 } else { 0 };
    let ghost d = unsigned_digits(b@);
    assert(d =~= b@.subrange(lo as int, b@.len() as int));
    if lo == b.len() {
        return None;
    }
    let mut i: usize = lo;
    while i < b.len()
        invariant
            lo <= i <= b@.len(),
            d == b@.subrange(lo as int, b@.len() as int),
            d == unsigned_digits(b@),
            forall|j: int| 0 <= j < i - lo ==> is_digit(#[trigger] d[j]),
        decreases b@.len() - i,
    {
        if !(0x30 <= b[i] && b[i] <= 0x39) {
            assert(d[i - lo] == b@[i as int]);
            assert(!is_digit(d[i - lo]));
            assert(exists|j: int| 0 <= j < d.len() && !is_digit(#[trigger] d[j]));
            return None;
        }
        i = i + 1;
    }
    let mut acc: u128 = 0;
    let mut k: usize = lo;
    while k < b.len()
        invariant
            lo <= k <= b@.len(),
            d == b@.subrange(lo as int, b@.len() as int),
            d == unsigned_digits(b@),
            forall|j: int| 0 <= j < d.len() ==> is_digit(#[trigger] d[j]),
            acc == dec_value(d, k - lo),
            acc <= usize::MAX,
        decreases b@.len() - k,
    {
        assert(is_digit(d[k - lo]));
        assert(d[k - lo] == b@[k as int]);
        let next: u128 = acc * 10 + (b[k] - 0x30) as u128;
        assert(next == dec_value(d, k - lo + 1));
        if next > usize::MAX as u128 {
            proof {
                lemma_dec_mono(d, k - lo + 1, d.len() as int);
                assert(!(exists|j: int| 0 <= j < d.len() && !is_digit(#[trigger] d[j])));
            }
            return None;
        }
        acc = next;
        k = k + 1;
    }
    Some(acc as usize)
}

pub(crate) fn parse_range_exec(det: &[u8]) -> (r: Option<(usize, usize)>)
    ensures
        r == parse_range(det@),
{
    let pat: [u8; 2] = [0x2e, 0x2e];
    assert(pat@ =~= dots());
    proof {
        lemma_find_pat_bounds(det@, 0, det@.len() as int, dots());
    }
    match find_pat_exec(det, 0, det.len(), pat.as_slice()) {
        None => None,
        Some(p) => {
            let a = vstd::slice::slice_subrange(det, 0, p);
            let b = vstd::slice::slice_subrange(det, p + 2, det.len());
            match (parse_usize_exec(a), parse_usize_exec(b)) {
                (Some(s), Some(e)) => Some((s, e)),
                _ => None,
            }
        },
    }
}


pub open spec fn strs(v: Seq<String>) -> Seq<Seq<u8>> {
    v.map_values(|s: String| utf8(s@))
}

pub(crate) fn value_text_exec(uri: &str, text: &str, file_id: FileId, s: usize, e: usize) -> (r: Option<Vec<u8>>)
    ensures
        match value_text(FileV { uri: uri@, text: text@, file_id }, s, e) {
            Some(v) => r matches Some(x) && x@ == v,
            None => r is None,
        },
        r matches Some(x) ==> valid_utf8(x@),
{
    let source = SourceText::new(file_id, uri, text);
    let b = text.as_bytes();
    proof {
        lemma_str_valid(text@);
    }
    match crate::navigation::trimmed_span_exec(&source, SourceSpan::new(file_id, s, e)) {
        None => None,
        Some(ts) => {
            if !raw_slice_ok(b, ts.start, ts.end) {
                return None;
            }
            proof {
                crate::text::lemma_valid_subrange(b@, ts.start as int, ts.end as int);
            }
            Some(vstd::slice::slice_to_vec(vstd::slice::slice_subrange(b, ts.start, ts.end)))
        },
    }
}

fn trimmed_piece_of(v: &[u8]) -> (r: Vec<u8>)
    requires
        valid_utf8(v@),
    ensures
        r@ == v@.subrange(trim_range(v@, 0, v@.len() as int).0, trim_range(v@, 0, v@.len() as int).1),
        valid_utf8(r@),
{
    let a = crate::text::trim_start_at(v, 0, v.len());
    let b = crate::text::trim_end_at(v, a, v.len());
    proof {
        crate::text::lemma_skip_ws_boundary(v@, 0, v@.len() as int);
        crate::text::lemma_skip_ws_back_boundary(v@, a as int, v@.len() as int);
        crate::text::lemma_valid_subrange(v@, a as int, b as int);
    }
    vstd::slice::slice_to_vec(vstd::slice::slice_subrange(v, a, b))
}

pub(crate) fn static_path_exec(vt: &[u8]) -> (r: Option<IdentifierPath>)
    requires
        valid_utf8(vt@),
    ensures
        match static_path(vt@) {
            Some(p) => r matches Some(x) && x.view_path() == p && p.len() > 0,
            None => r is None,
        },
{
    let t = trimmed_piece_of(vt);
    let n = t.len();
    if !(n >= 3 && t[0] == 0x24 && t[1] == 0x7b && t[n - 1] == 0x7d) {
        return None;
    }
    proof {
        crate::text::lemma_boundary_after_ascii(t@, 0);
        crate::text::lemma_boundary_after_ascii(t@, 1);
        crate::text::lemma_valid_subrange(t@, 2, n - 1);
    }
    let inner = vstd::slice::slice_to_vec(vstd::slice::slice_subrange(t.as_slice(), 2, n - 1));
    let i2 = trimmed_piece_of(inner.as_slice());
    let s = crate::text::bytes_to_string(i2);
    let source = SourceText::new(FileId(0), "inline", s.as_str());
    let span = SourceSpan::new(FileId(0), 0, s.as_str().as_bytes().len());
    match identifier_path_at_span(span, 0, &source) {
        Some((_, p)) => Some(p),
        None => None,
    }
}

fn static_target_exec(
    uri: &str,
    text: &str,
    file_id: FileId,
    defs: &Vec<Definition>,
    folders: &[String],
    config: &LumalsConfig,
    ident: &[u8],
    depth: u32,
) -> (r: Option<(String, Vec<String>)>)
    ensures
        match static_target(
            FileV { uri: uri@, text: text@, file_id },
            defs_view(defs@),
            strings_view(folders@),
            *config,
            ident@,
            depth as int,
        ) {
            Some((u, pre)) => r matches Some((x, y)) && x@ == u && strs(y@) == pre,
            None => r is None,
        },
    decreases config.max_resolve_depth - depth,
{
    let ghost cur = FileV { uri: uri@, text: text@, file_id };
    let ghost dv = defs_view(defs@);
    if depth >= config.max_resolve_depth {
        return None;
    }
    if let Some(i) = first_def_exec(defs, DefinitionKind::Alias, ident) {
        if let Some(t) = &defs[i].detail {
            proof {
                vstd::utf8::encode_utf8_decode_utf8(t@);
            }
            if let Ok(u) = resolve_guarded_import(uri, t.as_str(), folders, config) {
                let pre: Vec<String> = Vec::new();
                assert(strs(pre@) =~= Seq::<Seq<u8>>::empty());
                return Some((u, pre));
            }
        }
    }
    let i = match first_def_exec(defs, DefinitionKind::Let, ident) {
        Some(i) => i,
        None => return None,
    };
    let det = match &defs[i].detail {
        Some(d) => d,
        None => return None,
    };
    let (s, e) = match parse_range_exec(det.as_str().as_bytes()) {
        Some(x) => x,
        None => return None,
    };
    let vt = match value_text_exec(uri, text, file_id, s, e) {
        Some(v) => v,
        None => return None,
    };
    let path = match static_path_exec(vt.as_slice()) {
        Some(p) => p,
        None => return None,
    };
    let ghost segs = path.view_path();
    let first = path.segments[0].as_str().as_bytes();
    assert(first@ == segs[0]);
    match static_target_exec(uri, text, file_id, defs, folders, config, first, depth + 1) {
        None => None,
        Some((u, pre)) => {
            let mut out = pre;
            let ghost start = strs(out@);
            let mut k: usize = 1;
            while k < path.segments.len()
                invariant
                    1 <= k <= path.segments@.len(),
                    segs == path.view_path(),
                    strs(out@) == start + segs.subrange(1, k as int),
                decreases path.segments@.len() - k,
            {
                let ghost prev = out@;
                out.push(path.segments[k].clone());
                assert(strs(out@) =~= strs(prev).push(segs[k as int]));
                assert(segs.subrange(1, k + 1) =~= segs.subrange(1, k as int).push(segs[k as int]));
                k = k + 1;
            }
            assert(segs.subrange(1, segs.len() as int) =~= segs.drop_first());
            Some((u, out))
        },
    }
}

pub(crate) fn file_named_exec(entries: &Vec<Entry>, u: &str, Ghost(fs): Ghost<Seq<FileV>>) -> (r: Option<usize>)
    requires
        entries_ok(entries@, fs),
    ensures
        match file_named(fs, u@, 0) {
            Some(f) => r matches Some(i) && i < fs.len() && fs[i as int] == f,
            None => r is None,
        },
{
    let mut i: usize = 0;
    while i < entries.len()
        invariant
            entries_ok(entries@, fs),
            i <= entries@.len(),
            file_named(fs, u@, i as int) == file_named(fs, u@, 0),
        decreases entries@.len() - i,
    {
        assert(entry_ok(entries@[i as int], fs[i as int]));
        if str_eq(entries[i].uri.as_str(), u) {
            return Some(i);
        }
        i = i + 1;
    }
    None
}

pub(crate) fn dotted_exec(path: &Vec<String>) -> (r: Vec<u8>)
    ensures
        r@ == dotted(strs(path@), path@.len() as int),
{
    let mut out: Vec<u8> = Vec::new();
    crate::text::push_text(&mut out, "document[1]");
    assert(out@ =~= dotted(strs(path@), 0)) by {
        crate::text::lemma_str_valid(Seq::<char>::empty());
        assert(utf8(Seq::<char>::empty()) =~= Seq::<u8>::empty());
    }
    let mut k: usize = 0;
    while k < path.len()
        invariant
            k <= path@.len(),
            out@ == dotted(strs(path@), k as int),
        decreases path@.len() - k,
    {
        out.push(0x2e);
        let seg = path[k].as_str().as_bytes();
        let ghost before = out@;
        crate::text::push_range(&mut out, seg, 0, seg.len());
        assert(seg@.subrange(0, seg@.len() as int) =~= seg@);
        assert(strs(path@)[k as int] == seg@);
        k = k + 1;
    }
    out
}

fn root_loc_exec(out: &mut Vec<Location>, e: &Entry, Ghost(f): Ghost<FileV>)
    requires
        entry_ok(*e, f),
    ensures
        locs_view(final(out)@) == locs_view(old(out)@) + root_loc(f),
{
    match span_range_exec(e.text.as_str(), e.root) {
        Some(r) => {
            push_loc(out, Location { uri: e.uri.clone(), range: r });
            assert(locs_view(out@) =~= locs_view(old(out)@) + root_loc(f));
        },
        None => {
            assert(locs_view(out@) =~= locs_view(old(out)@) + root_loc(f));
        },
    }
}

fn path_target_exec(out: &mut Vec<Location>, entries: &Vec<Entry>, u: &str, path: &Vec<String>, Ghost(fs): Ghost<Seq<FileV>>)
    requires
        entries_ok(entries@, fs),
    ensures
        locs_view(final(out)@) == locs_view(old(out)@) + path_target_locs(fs, u@, strs(path@)),
{
    match file_named_exec(entries, u, Ghost(fs)) {
        None => {
            assert(locs_view(out@) =~= locs_view(old(out)@) + path_target_locs(fs, u@, strs(path@)));
        },
        Some(i) => {
            let ghost f = fs[i as int];
            assert(entry_ok(entries@[i as int], f));
            if path.len() == 0 {
                root_loc_exec(out, &entries[i], Ghost(f));
            } else {
                let q = Query::KeyPath(dotted_exec(path));
                query_locs_exec(out, &entries[i], &q, Ghost(f));
            }
        },
    }
}

spec fn defs_ok_for(defs: Seq<Definition>, f: FileV) -> bool {
    defs_view(defs) == defs_of(f)
}

fn impl_locs_exec(
    entries: &Vec<Entry>,
    t: &ImplementationTarget,
    folders: &[String],
    config: &LumalsConfig,
    Ghost(fs): Ghost<Seq<FileV>>,
) -> (r: Vec<Location>)
    requires
        entries_ok(entries@, fs),
        fs.len() > 0,
    ensures
        locs_view(r@) == impl_locs(fs, fs[0], strings_view(folders@), *config, t.view_target()),
{
    let mut out: Vec<Location> = Vec::new();
    assert(entry_ok(entries@[0], fs[0]));
    let cur = &entries[0];
    match t {
        ImplementationTarget::Import(target) => {
            proof {
                vstd::utf8::encode_utf8_decode_utf8(target@);
            }
            match resolve_guarded_import(cur.uri.as_str(), target.as_str(), folders, config) {
                Ok(u) => {
                    match file_named_exec(entries, u.as_str(), Ghost(fs)) {
                        Some(i) => {
                            assert(entry_ok(entries@[i as int], fs[i as int]));
                            root_loc_exec(&mut out, &entries[i], Ghost(fs[i as int]));
                        },
                        None => {},
                    }
                },
                Err(_) => {},
            }
            assert(locs_view(out@) =~= impl_locs(fs, fs[0], strings_view(folders@), *config, t.view_target()));
        },
        ImplementationTarget::Reference(p) => {
            if p.segments.len() == 0 {
                assert(locs_view(out@) =~= Seq::<LocV>::empty());
                return out;
            }
            let first = p.segments[0].as_str().as_bytes();
            let ghost segs = p.view_path();
            assert(first@ == segs[0]);
            match static_target_exec(cur.uri.as_str(), cur.text.as_str(), cur.file_id, &cur.defs, folders, config, first, 0) {
                None => {
                    assert(locs_view(out@) =~= Seq::<LocV>::empty());
                },
                Some((u, pre)) => {
                    let mut path = pre;
                    let ghost start = strs(path@);
                    let mut k: usize = 1;
                    while k < p.segments.len()
                        invariant
                            1 <= k <= p.segments@.len(),
                            segs == p.view_path(),
                            strs(path@) == start + segs.subrange(1, k as int),
                        decreases p.segments@.len() - k,
                    {
                        let ghost prev = path@;
                        path.push(p.segments[k].clone());
                        assert(strs(path@) =~= strs(prev).push(segs[k as int]));
                        assert(segs.subrange(1, k + 1) =~= segs.subrange(1, k as int).push(segs[k as int]));
                        k = k + 1;
                    }
                    assert(segs.subrange(1, segs.len() as int) =~= segs.drop_first());
                    path_target_exec(&mut out, entries, u.as_str(), &path, Ghost(fs));
                    assert(locs_view(out@) =~= impl_locs(fs, fs[0], strings_view(folders@), *config, t.view_target()));
                },
            }
        },
    }
    out
}

fn build_corpus(uri: &str, text: &str, file_id: FileId, files: &[(String, String, FileId)]) -> (es: Vec<Entry>)
    requires
        corpus_ok(nav_corpus(FileV { uri: uri@, text: text@, file_id }, files_v(files@))),
    ensures
        entries_ok(es@, nav_corpus(FileV { uri: uri@, text: text@, file_id }, files_v(files@))),
{
    let ghost fs = nav_corpus(FileV { uri: uri@, text: text@, file_id }, files_v(files@));
    assert(lexable(fs[0]));
    let mut es: Vec<Entry> = Vec::new();
    es.push(build_entry(uri, text, file_id));
    let mut k: usize = 0;
    while k < files.len()
        invariant
            k <= files@.len(),
            fs == nav_corpus(FileV { uri: uri@, text: text@, file_id }, files_v(files@)),
            corpus_ok(fs),
            es@.len() == k + 1,
            forall|i: int| 0 <= i < es@.len() ==> entry_ok(#[trigger] es@[i], fs[i]),
        decreases files@.len() - k,
    {
        let (u, t, f) = &files[k];
        assert(fs[k + 1] == file_v(files@[k as int]));
        assert(lexable(fs[k + 1]));
        es.push(build_entry(u.as_str(), t.as_str(), *f));
        k = k + 1;
    }
    es
}

/// "Go to implementation": the first target at the offset (an import directive's file, or
/// the key a `${...}` path leads to through aliases and let bindings) that leads somewhere
/// in the workspace, with the current file first and then `files`.
pub fn goto_implementation(
    uri: &str,
    text: &str,
    file_id: FileId,
    offset: usize,
    files: &[(String, String, FileId)],
    folder_uris: &[String],
    config: &LumalsConfig,
) -> (r: Vec<Location>)
    requires
        corpus_ok(nav_corpus(FileV { uri: uri@, text: text@, file_id }, files_v(files@))),
    ensures
        locs_view(r@) == goto_implementation_spec(
            FileV { uri: uri@, text: text@, file_id },
            files_v(files@),
            offset as int,
            strings_view(folder_uris@),
            *config,
        ),
{
    let ghost cur = FileV { uri: uri@, text: text@, file_id };
    let ghost fs = nav_corpus(cur, files_v(files@));
    assert(fs[0] == cur);
    assert(lexable(cur));
    let parsed = parse_fallback(file_id, uri, text);
    let ParsedFile::Fallback(ff) = &parsed.file;
    let targets = implementation_candidates(&ff.ast.documents, offset, &parsed.source);
    let ghost ts = targets_view(targets@);
    let entries = build_corpus(uri, text, file_id, files);
    first_impl_exec(&entries, &targets, folder_uris, config, Ghost(fs))
}

fn first_impl_exec(
    entries: &Vec<Entry>,
    targets: &Vec<ImplementationTarget>,
    folder_uris: &[String],
    config: &LumalsConfig,
    Ghost(fs): Ghost<Seq<FileV>>,
) -> (r: Vec<Location>)
    requires
        entries_ok(entries@, fs),
        fs.len() > 0,
    ensures
        locs_view(r@) == first_impl(fs, fs[0], strings_view(folder_uris@), *config, targets_view(targets@), 0),
{
    let ghost ts = targets_view(targets@);
    let mut k: usize = 0;
    while k < targets.len()
        invariant
            k <= targets@.len(),
            ts == targets_view(targets@),
            entries_ok(entries@, fs),
            fs.len() > 0,
            first_impl(fs, fs[0], strings_view(folder_uris@), *config, ts, k as int) == first_impl(
                fs,
                fs[0],
                strings_view(folder_uris@),
                *config,
                ts,
                0,
            ),
        decreases targets@.len() - k,
    {
        let locs = impl_locs_exec(entries, &targets[k], folder_uris, config, Ghost(fs));
        assert(ts[k as int] == targets@[k as int].view_target());
        assert(locs_view(locs@).len() == locs@.len());
        if locs.len() > 0 {
            return locs;
        }
        k = k + 1;
    }
    let r: Vec<Location> = Vec::new();
    assert(locs_view(r@) =~= Seq::<LocV>::empty());
    r
}


// ---------------------------------------------------------------------------
// Go to definition

/// What definition lookups read: the workspace (the current file first), the offset, the
/// workspace folders and the configuration.
pub struct NavCtx {
    pub fs: Seq<FileV>,
    pub offset: int,
    pub folders: Seq<Seq<char>>,
    pub config: LumalsConfig,
}

pub open spec fn cur_of(c: NavCtx) -> FileV {
    c.fs[0]
}

/// The locations of the current file's definitions of this kind and name.
pub open spec fn local_locs(c: NavCtx, kind: DefinitionKind, name: Seq<u8>) -> Seq<LocV> {
    query_locs(cur_of(c), defs_of(cur_of(c)), QueryV::KindName(kind, name), defs_of(cur_of(c)).len() as int)
}

/// Where a reference path leads: one name to the current file's alias, let binding or key of
/// that name, else to every definition of that name in the workspace; a longer path to the
/// key it names in the file its first name stands for.
pub open spec fn ref_locs(c: NavCtx, segs: Seq<Seq<u8>>) -> Seq<LocV> {
    if segs.len() == 0 {
        seq![]
    } else if segs.len() == 1 {
        let a = local_locs(c, DefinitionKind::Alias, segs[0]);
        let l = local_locs(c, DefinitionKind::Let, segs[0]);
        let k = local_locs(c, DefinitionKind::Key, segs[0]);
        if a.len() > 0 {
            a
        } else if l.len() > 0 {
            l
        } else if k.len() > 0 {
            k
        } else {
            corpus_locs(c.fs, QueryV::Name(segs[0]), c.fs.len() as int)
        }
    } else {
        match static_target(cur_of(c), defs_of(cur_of(c)), c.folders, c.config, segs[0], 0) {
            Some((u, pre)) => path_target_locs(c.fs, u, pre + segs.drop_first()),
            None => seq![],
        }
    }
}

/// A `${...}` scalar under the offset leads where its path does.
pub open spec fn leaf_nav(c: NavCtx, l: Option<LeafV>) -> Seq<LocV> {
    match l {
        Some(LeafV::Scalar { kind, span, .. }) => if kind == ScalarKind::LuaExpression {
            match ident_path(norm_of(cur_of(c)), cur_of(c).file_id, span, c.offset) {
                Some((_, p)) => ref_locs(c, p),
                None => seq![],
            }
        } else {
            seq![]
        },
        _ => seq![],
    }
}

/// The metadata name of an entry, when the offset is on it.
pub open spec fn meta_name(c: NavCtx, e: EntryV) -> Option<Seq<u8>> {
    let norm = norm_of(cur_of(c));
    let fid = cur_of(c).file_id;
    match crate::outline::metadata_span(norm, fid, e) {
        Some(ms) => if contains(ms, c.offset) {
            source_slice(norm, fid, ms)
        } else {
            None
        },
        None => None,
    }
}

pub open spec fn entries_nav(c: NavCtx, es: Seq<EntryV>, i: int) -> Seq<LocV>
    decreases es.len() - i,
{
    if i < 0 || i >= es.len() {
        seq![]
    } else {
        match meta_name(c, es[i]) {
            Some(name) => {
                let l = local_locs(c, DefinitionKind::Key, name);
                if l.len() > 0 {
                    l
                } else {
                    corpus_locs(c.fs, QueryV::KindName(DefinitionKind::Key, name), c.fs.len() as int)
                }
            },
            None => {
                let v = leaf_nav(c, es[i].value);
                if v.len() > 0 {
                    v
                } else {
                    entries_nav(c, es, i + 1)
                }
            },
        }
    }
}

pub open spec fn seq_nav(c: NavCtx, items: Seq<ItemV>, i: int) -> Seq<LocV>
    decreases items.len() - i,
{
    if i < 0 || i >= items.len() {
        seq![]
    } else {
        let v = leaf_nav(c, items[i].value);
        if v.len() > 0 {
            v
        } else {
            seq_nav(c, items, i + 1)
        }
    }
}

pub open spec fn node_nav(c: NavCtx, n: NodeV) -> Seq<LocV> {
    match n {
        NodeV::Mapping { entries, .. } => entries_nav(c, entries, 0),
        NodeV::Sequence { items, .. } => seq_nav(c, items, 0),
        NodeV::Leaf(l) => leaf_nav(c, Some(l)),
        NodeV::Tag { value, .. } => leaf_nav(c, value),
        _ => seq![],
    }
}

/// An import directive leads to its file's root when the offset is on its target, and to
/// its alias's definition when on its alias.
pub open spec fn directive_nav(c: NavCtx, name: Seq<u8>, span: SourceSpan, value: Option<Seq<u8>>) -> Seq<LocV> {
    let norm = norm_of(cur_of(c));
    let fid = cur_of(c).file_id;
    let via_target = if import_like(name) && opt_contains(target_span(norm, fid, span, value), c.offset) {
        match target_of(value) {
            Some(t) => match guarded_import_spec(cur_of(c).uri, decode_utf8(t), c.folders, c.config) {
                Ok(u) => match file_named(c.fs, u, 0) {
                    Some(f) => root_loc(f),
                    None => seq![],
                },
                Err(_) => seq![],
            },
            None => seq![],
        }
    } else {
        seq![]
    };
    if via_target.len() > 0 {
        via_target
    } else {
        match alias_span(norm, fid, name, span, value) {
            Some(asp) => if contains(asp, c.offset) {
                match source_slice(norm, fid, asp) {
                    Some(a) => local_locs(c, DefinitionKind::Alias, a),
                    None => seq![],
                }
            } else {
                seq![]
            },
            None => seq![],
        }
    }
}

/// A let binding leads to itself from its name, and from its value where its path leads.
pub open spec fn let_nav(c: NavCtx, name: Seq<u8>, span: SourceSpan, value_span: Option<SourceSpan>) -> Seq<LocV> {
    let norm = norm_of(cur_of(c));
    let fid = cur_of(c).file_id;
    let ns = span.start + 4;
    let ne = span.start + 4 + name.len();
    if span.end >= ne && ns <= c.offset < ne {
        local_locs(c, DefinitionKind::Let, name)
    } else {
        match value_span {
            Some(vs) => if contains(vs, c.offset) {
                match trimmed_span(norm, fid, vs) {
                    Some(ts) => match ident_path(norm, fid, ts, c.offset) {
                        Some((_, p)) => ref_locs(c, p),
                        None => seq![],
                    },
                    None => seq![],
                }
            } else {
                seq![]
            },
            None => seq![],
        }
    }
}

pub open spec fn item_nav(c: NavCtx, i: DocItemV) -> Seq<LocV> {
    match i {
        DocItemV::Directive { name, span, value } => directive_nav(c, name, span, value),
        DocItemV::Let { name, span, value_span } => let_nav(c, name, span, value_span),
        DocItemV::Node(n) => node_nav(c, n),
        DocItemV::Comment { .. } => seq![],
    }
}

pub open spec fn items_nav(c: NavCtx, items: Seq<DocItemV>, i: int) -> Seq<LocV>
    decreases items.len() - i,
{
    if i < 0 || i >= items.len() {
        seq![]
    } else if item_nav(c, items[i]).len() > 0 {
        item_nav(c, items[i])
    } else {
        items_nav(c, items, i + 1)
    }
}

pub open spec fn docs_nav(c: NavCtx, docs: Seq<DocV>, d: int) -> Seq<LocV>
    decreases docs.len() - d,
{
    if d < 0 || d >= docs.len() {
        seq![]
    } else if items_nav(c, docs[d].items, 0).len() > 0 {
        items_nav(c, docs[d].items, 0)
    } else {
        docs_nav(c, docs, d + 1)
    }
}

/// "Go to definition": the first item of the current file whose lookup at the offset finds
/// something, and what it finds.
pub open spec fn goto_definition_spec(
    cur: FileV,
    files: Seq<FileV>,
    offset: int,
    folders: Seq<Seq<char>>,
    config: LumalsConfig,
) -> Seq<LocV> {
    docs_nav(NavCtx { fs: nav_corpus(cur, files), offset, folders, config }, docs_of(cur), 0)
}

/// The executable side of a definition lookup.
spec fn ctx_ok(entries: Seq<Entry>, source: SourceText, offset: usize, folders: Seq<String>, config: LumalsConfig, c: NavCtx) -> bool {
    &&& entries_ok(entries, c.fs)
    &&& c.fs.len() > 0
    &&& source.bytes() == norm_of(c.fs[0])
    &&& source.file_id == c.fs[0].file_id
    &&& c.offset == offset as int
    &&& c.folders == strings_view(folders)
    &&& c.config == config
}

pub(crate) fn append(out: &mut Vec<Location>, more: Vec<Location>)
    ensures
        locs_view(final(out)@) == locs_view(old(out)@) + locs_view(more@),
{
    let ghost before = locs_view(out@);
    let mut more = more;
    let ghost m = locs_view(more@);
    out.append(&mut more);
    assert(locs_view(out@) =~= before + m);
}

fn local_locs_exec(entries: &Vec<Entry>, kind: DefinitionKind, name: &[u8], Ghost(c): Ghost<NavCtx>) -> (r: Vec<Location>)
    requires
        entries_ok(entries@, c.fs),
        c.fs.len() > 0,
    ensures
        locs_view(r@) == local_locs(c, kind, name@),
{
    let mut out: Vec<Location> = Vec::new();
    assert(entry_ok(entries@[0], c.fs[0]));
    let mut nb: Vec<u8> = Vec::new();
    crate::text::push_range(&mut nb, name, 0, name.len());
    assert(nb@ =~= name@);
    let q = Query::KindName(kind, nb);
    query_locs_exec(&mut out, &entries[0], &q, Ghost(c.fs[0]));
    assert(locs_view(out@) =~= local_locs(c, kind, name@));
    out
}

fn corpus_locs_exec(entries: &Vec<Entry>, q: &Query, Ghost(fs): Ghost<Seq<FileV>>) -> (r: Vec<Location>)
    requires
        entries_ok(entries@, fs),
    ensures
        locs_view(r@) == corpus_locs(fs, query_v(*q), fs.len() as int),
{
    let mut out: Vec<Location> = Vec::new();
    let mut k: usize = 0;
    assert(locs_view(out@) =~= Seq::<LocV>::empty());
    while k < entries.len()
        invariant
            entries_ok(entries@, fs),
            k <= entries@.len(),
            locs_view(out@) == corpus_locs(fs, query_v(*q), k as int),
        decreases entries@.len() - k,
    {
        assert(entry_ok(entries@[k as int], fs[k as int]));
        query_locs_exec(&mut out, &entries[k], q, Ghost(fs[k as int]));
        k = k + 1;
    }
    out
}

pub(crate) fn bytes_of(s: &str) -> (r: Vec<u8>)
    ensures
        r@ == utf8(s@),
{
    let b = s.as_bytes();
    let mut v: Vec<u8> = Vec::new();
    crate::text::push_range(&mut v, b, 0, b.len());
    assert(v@ =~= b@);
    v
}

fn ref_locs_exec(
    entries: &Vec<Entry>,
    path: &IdentifierPath,
    folders: &[String],
    config: &LumalsConfig,
    Ghost(c): Ghost<NavCtx>,
) -> (r: Vec<Location>)
    requires
        entries_ok(entries@, c.fs),
        c.fs.len() > 0,
        c.folders == strings_view(folders@),
        c.config == *config,
    ensures
        locs_view(r@) == ref_locs(c, path.view_path()),
{
    let ghost segs = path.view_path();
    let n = path.segments.len();
    if n == 0 {
        let r: Vec<Location> = Vec::new();
        assert(locs_view(r@) =~= Seq::<LocV>::empty());
        return r;
    }
    let first = path.segments[0].as_str().as_bytes();
    assert(first@ == segs[0]);
    if n == 1 {
        let a = local_locs_exec(entries, DefinitionKind::Alias, first, Ghost(c));
        if a.len() > 0 {
            return a;
        }
        let l = local_locs_exec(entries, DefinitionKind::Let, first, Ghost(c));
        if l.len() > 0 {
            return l;
        }
        let k = local_locs_exec(entries, DefinitionKind::Key, first, Ghost(c));
        if k.len() > 0 {
            return k;
        }
        let q = Query::Name(bytes_of(path.segments[0].as_str()));
        return corpus_locs_exec(entries, &q, Ghost(c.fs));
    }
    assert(entry_ok(entries@[0], c.fs[0]));
    let cur = &entries[0];
    match static_target_exec(cur.uri.as_str(), cur.text.as_str(), cur.file_id, &cur.defs, folders, config, first, 0) {
        None => {
            let r: Vec<Location> = Vec::new();
            assert(locs_view(r@) =~= Seq::<LocV>::empty());
            r
        },
        Some((u, pre)) => {
            let mut p = pre;
            let ghost start = strs(p@);
            let mut k: usize = 1;
            while k < n
                invariant
                    1 <= k <= n,
                    n == path.segments@.len(),
                    segs == path.view_path(),
                    strs(p@) == start + segs.subrange(1, k as int),
                decreases n - k,
            {
                let ghost prev = p@;
                p.push(path.segments[k].clone());
                assert(strs(p@) =~= strs(prev).push(segs[k as int]));
                assert(segs.subrange(1, k + 1) =~= segs.subrange(1, k as int).push(segs[k as int]));
                k = k + 1;
            }
            assert(segs.subrange(1, segs.len() as int) =~= segs.drop_first());
            let mut out: Vec<Location> = Vec::new();
            path_target_exec(&mut out, entries, u.as_str(), &p, Ghost(c.fs));
            assert(locs_view(out@) =~= ref_locs(c, segs));
            out
        },
    }
}

fn leaf_nav_exec(
    node: &Node,
    source: &SourceText,
    entries: &Vec<Entry>,
    offset: usize,
    folders: &[String],
    config: &LumalsConfig,
    Ghost(c): Ghost<NavCtx>,
) -> (r: Vec<Location>)
    requires
        ctx_ok(entries@, *source, offset, folders@, *config, c),
    ensures
        locs_view(r@) == leaf_nav(c, Some(node.leaf_view())),
{
    let empty: Vec<Location> = Vec::new();
    assert(locs_view(empty@) =~= Seq::<LocV>::empty());
    match node {
        Node::Scalar(sc) => {
            if sc.kind != ScalarKind::LuaExpression {
                return empty;
            }
            match identifier_path_at_span(sc.span, offset, source) {
                Some((_, p)) => ref_locs_exec(entries, &p, folders, config, Ghost(c)),
                None => empty,
            }
        },
        _ => empty,
    }
}

fn opt_leaf_nav_exec(
    value: &Option<Box<Node>>,
    source: &SourceText,
    entries: &Vec<Entry>,
    offset: usize,
    folders: &[String],
    config: &LumalsConfig,
    Ghost(c): Ghost<NavCtx>,
) -> (r: Vec<Location>)
    requires
        ctx_ok(entries@, *source, offset, folders@, *config, c),
    ensures
        locs_view(r@) == leaf_nav(c, crate::ast::opt_leaf(*value)),
{
    match value {
        Some(n) => leaf_nav_exec(n, source, entries, offset, folders, config, Ghost(c)),
        None => {
            let r: Vec<Location> = Vec::new();
            assert(locs_view(r@) =~= Seq::<LocV>::empty());
            r
        },
    }
}

fn entry_nav_exec(
    e: &MappingEntry,
    source: &SourceText,
    entries: &Vec<Entry>,
    offset: usize,
    folders: &[String],
    config: &LumalsConfig,
    Ghost(c): Ghost<NavCtx>,
) -> (r: (bool, Vec<Location>))
    requires
        ctx_ok(entries@, *source, offset, folders@, *config, c),
    ensures
        match meta_name(c, e.view_entry()) {
            Some(name) => r.0 && locs_view(r.1@) == (if local_locs(c, DefinitionKind::Key, name).len() > 0 {
                local_locs(c, DefinitionKind::Key, name)
            } else {
                corpus_locs(c.fs, QueryV::KindName(DefinitionKind::Key, name), c.fs.len() as int)
            }),
            None => r.0 == (leaf_nav(c, e.view_entry().value).len() > 0) && locs_view(r.1@) == leaf_nav(
                c,
                e.view_entry().value,
            ),
        },
{
    let b = source.text.as_str().as_bytes();
    let ms = crate::outline::metadata_span_exec(b, source.file_id, e);
    let mut name: Option<&str> = None;
    if let Some(sp) = ms {
        if sp.start <= offset && offset < sp.end {
            name = source.slice(sp);
        }
    }
    assert(match meta_name(c, e.view_entry()) {
        Some(x) => name matches Some(y) && utf8(y@) == x,
        None => name is None,
    });
    match name {
        Some(nm) => {
            let l = local_locs_exec(entries, DefinitionKind::Key, nm.as_bytes(), Ghost(c));
            assert(locs_view(l@).len() == l@.len());
            if l.len() > 0 {
                return (true, l);
            }
            let q = Query::KindName(DefinitionKind::Key, bytes_of(nm));
            (true, corpus_locs_exec(entries, &q, Ghost(c.fs)))
        },
        None => {
            let v = opt_leaf_nav_exec(&e.value, source, entries, offset, folders, config, Ghost(c));
            assert(locs_view(v@).len() == v@.len());
            (v.len() > 0, v)
        },
    }
}

fn node_nav_exec(
    node: &Node,
    source: &SourceText,
    entries: &Vec<Entry>,
    offset: usize,
    folders: &[String],
    config: &LumalsConfig,
    Ghost(c): Ghost<NavCtx>,
) -> (r: Vec<Location>)
    requires
        ctx_ok(entries@, *source, offset, folders@, *config, c),
    ensures
        locs_view(r@) == node_nav(c, node.view_node()),
{
    let empty: Vec<Location> = Vec::new();
    assert(locs_view(empty@) =~= Seq::<LocV>::empty());
    match node {
        Node::Mapping(m) => {
            let ghost es = m.entries@.map_values(|e: MappingEntry| e.view_entry());
            let mut i: usize = 0;
            while i < m.entries.len()
                invariant
                    ctx_ok(entries@, *source, offset, folders@, *config, c),
                    i <= m.entries@.len(),
                    es == m.entries@.map_values(|e: MappingEntry| e.view_entry()),
                    node.view_node() == (NodeV::Mapping { span: m.span, entries: es }),
                    entries_nav(c, es, i as int) == entries_nav(c, es, 0),
                decreases m.entries@.len() - i,
            {
                let e = &m.entries[i];
                assert(es[i as int] == e.view_entry());
                let (done, v) = entry_nav_exec(e, source, entries, offset, folders, config, Ghost(c));
                if done {
                    return v;
                }
                i = i + 1;
            }
            empty
        },
        Node::Sequence(q) => {
            let ghost its = q.items@.map_values(|i: crate::ast::SequenceItem| i.view_item());
            let mut i: usize = 0;
            while i < q.items.len()
                invariant
                    ctx_ok(entries@, *source, offset, folders@, *config, c),
                    i <= q.items@.len(),
                    its == q.items@.map_values(|i: crate::ast::SequenceItem| i.view_item()),
                    seq_nav(c, its, i as int) == seq_nav(c, its, 0),
                    node.view_node() == (NodeV::Sequence { span: q.span, items: its }),
                decreases q.items@.len() - i,
            {
                assert(its[i as int] == q.items@[i as int].view_item());
                let v = opt_leaf_nav_exec(&q.items[i].value, source, entries, offset, folders, config, Ghost(c));
                assert(locs_view(v@).len() == v@.len());
                if v.len() > 0 {
                    return v;
                }
                i = i + 1;
            }
            empty
        },
        Node::Scalar(_) | Node::Error(_) => leaf_nav_exec(node, source, entries, offset, folders, config, Ghost(c)),
        Node::Tag(t) => opt_leaf_nav_exec(&t.value, source, entries, offset, folders, config, Ghost(c)),
        _ => empty,
    }
}

fn item_nav_exec(
    item: &DocumentItem,
    source: &SourceText,
    entries: &Vec<Entry>,
    offset: usize,
    folders: &[String],
    config: &LumalsConfig,
    Ghost(c): Ghost<NavCtx>,
) -> (r: Vec<Location>)
    requires
        ctx_ok(entries@, *source, offset, folders@, *config, c),
    ensures
        locs_view(r@) == item_nav(c, item.view_item()),
{
    let empty: Vec<Location> = Vec::new();
    assert(locs_view(empty@) =~= Seq::<LocV>::empty());
    match item {
        DocumentItem::Directive(d) => {
            let mut via: Vec<Location> = Vec::new();
            if crate::navigation::is_import_like(d.name.as_str()) {
                if let Some(ps) = crate::navigation::target_span_exec(source, d.span, &d.value) {
                    if ps.start <= offset && offset < ps.end {
                        if let Some(t) = crate::navigation::target_of_exec(&d.value) {
                            proof {
                                vstd::utf8::encode_utf8_decode_utf8(t@);
                            }
                            assert(entry_ok(entries@[0], c.fs[0]));
                            if let Ok(u) = resolve_guarded_import(entries[0].uri.as_str(), t.as_str(), folders, config) {
                                if let Some(i) = file_named_exec(entries, u.as_str(), Ghost(c.fs)) {
                                    assert(entry_ok(entries@[i as int], c.fs[i as int]));
                                    root_loc_exec(&mut via, &entries[i], Ghost(c.fs[i as int]));
                                }
                            }
                        }
                    }
                }
            }
            assert(locs_view(via@).len() == via@.len());
            if via.len() > 0 {
                return via;
            }
            match crate::navigation::alias_span_exec(source, d.name.as_str(), d.span, &d.value) {
                Some(asp) => {
                    if asp.start <= offset && offset < asp.end {
                        match source.slice(asp) {
                            Some(a) => local_locs_exec(entries, DefinitionKind::Alias, a.as_bytes(), Ghost(c)),
                            None => empty,
                        }
                    } else {
                        empty
                    }
                },
                None => empty,
            }
        },
        DocumentItem::Let(l) => {
            let nb = l.name.as_str().as_bytes();
            let s = l.span.start;
            if s <= usize::MAX - 4 && nb.len() <= usize::MAX - 4 - s && l.span.end >= s + 4 + nb.len() && s + 4 <= offset
                && offset < s + 4 + nb.len() {
                return local_locs_exec(entries, DefinitionKind::Let, nb, Ghost(c));
            }
            match l.value_span {
                Some(vs) => {
                    if !(vs.start <= offset && offset < vs.end) {
                        return empty;
                    }
                    match crate::navigation::trimmed_span_exec(source, vs) {
                        Some(ts) => match identifier_path_at_span(ts, offset, source) {
                            Some((_, p)) => ref_locs_exec(entries, &p, folders, config, Ghost(c)),
                            None => empty,
                        },
                        None => empty,
                    }
                },
                None => empty,
            }
        },
        DocumentItem::Node(n) => node_nav_exec(n, source, entries, offset, folders, config, Ghost(c)),
        DocumentItem::Comment(_) => empty,
    }
}

fn docs_nav_exec(
    documents: &Vec<Document>,
    source: &SourceText,
    entries: &Vec<Entry>,
    offset: usize,
    folders: &[String],
    config: &LumalsConfig,
    Ghost(c): Ghost<NavCtx>,
) -> (r: Vec<Location>)
    requires
        ctx_ok(entries@, *source, offset, folders@, *config, c),
    ensures
        locs_view(r@) == docs_nav(c, documents@.map_values(|d: Document| d.view_doc()), 0),
{
    let ghost docs = documents@.map_values(|d: Document| d.view_doc());
    let mut d: usize = 0;
    while d < documents.len()
        invariant
            ctx_ok(entries@, *source, offset, folders@, *config, c),
            d <= documents@.len(),
            docs == documents@.map_values(|d: Document| d.view_doc()),
            docs_nav(c, docs, d as int) == docs_nav(c, docs, 0),
        decreases documents@.len() - d,
    {
        let doc = &documents[d];
        let ghost items = doc.view_doc().items;
        assert(docs[d as int] == doc.view_doc());
        let mut i: usize = 0;
        while i < doc.items.len()
            invariant
                ctx_ok(entries@, *source, offset, folders@, *config, c),
                i <= doc.items@.len(),
                items == doc.view_doc().items,
                items.len() == doc.items@.len(),
                items_nav(c, items, i as int) == items_nav(c, items, 0),
                docs == documents@.map_values(|d: Document| d.view_doc()),
                d < docs.len(),
                docs[d as int].items == items,
                docs_nav(c, docs, d as int) == docs_nav(c, docs, 0),
            decreases doc.items@.len() - i,
        {
            assert(items[i as int] == doc.items@[i as int].view_item());
            let r = item_nav_exec(&doc.items[i], source, entries, offset, folders, config, Ghost(c));
            assert(locs_view(r@).len() == r@.len());
            if r.len() > 0 {
                assert(items_nav(c, items, i as int) == locs_view(r@));
                assert(docs_nav(c, docs, d as int) == locs_view(r@));
                return r;
            }
            i = i + 1;
        }
        d = d + 1;
    }
    let r: Vec<Location> = Vec::new();
    assert(locs_view(r@) =~= Seq::<LocV>::empty());
    r
}

/// "Go to definition": with the current file first and then `files` as the workspace, the
/// first item of the current file whose lookup at the offset finds definitions: an import's
/// file, an alias, a let binding, a key named by metadata, or where a `${...}` path leads.
pub fn goto_definition(
    uri: &str,
    text: &str,
    file_id: FileId,
    offset: usize,
    files: &[(String, String, FileId)],
    folder_uris: &[String],
    config: &LumalsConfig,
) -> (r: Vec<Location>)
    requires
        corpus_ok(nav_corpus(FileV { uri: uri@, text: text@, file_id }, files_v(files@))),
    ensures
        locs_view(r@) == goto_definition_spec(
            FileV { uri: uri@, text: text@, file_id },
            files_v(files@),
            offset as int,
            strings_view(folder_uris@),
            *config,
        ),
{
    let ghost cur = FileV { uri: uri@, text: text@, file_id };
    let ghost c = NavCtx { fs: nav_corpus(cur, files_v(files@)), offset: offset as int, folders: strings_view(folder_uris@), config: *config };
    assert(c.fs[0] == cur);
    assert(lexable(cur));
    let parsed = parse_fallback(file_id, uri, text);
    let ParsedFile::Fallback(ff) = &parsed.file;
    let entries = build_corpus(uri, text, file_id, files);
    docs_nav_exec(&ff.ast.documents, &parsed.source, &entries, offset, folder_uris, config, Ghost(c))
}

/// "Go to declaration" answers as "go to definition".
pub fn goto_declaration(
    uri: &str,
    text: &str,
    file_id: FileId,
    offset: usize,
    files: &[(String, String, FileId)],
    folder_uris: &[String],
    config: &LumalsConfig,
) -> (r: Vec<Location>)
    requires
        corpus_ok(nav_corpus(FileV { uri: uri@, text: text@, file_id }, files_v(files@))),
    ensures
        locs_view(r@) == goto_definition_spec(
            FileV { uri: uri@, text: text@, file_id },
            files_v(files@),
            offset as int,
            strings_view(folder_uris@),
            *config,
        ),
{
    goto_definition(uri, text, file_id, offset, files, folder_uris, config)
}


// ---------------------------------------------------------------------------
// Go to type definition

/// Where a type-like name is declared: the `@schema` directives with that value, else the
/// `@profile` ones, else the tags of that name.
pub open spec fn type_like(c: NavCtx, name: Seq<u8>) -> Seq<LocV> {
    let n = c.fs.len() as int;
    let s = corpus_locs(c.fs, QueryV::DirectiveValue(crate::symbols::lit("@schema"), name), n);
    let p = corpus_locs(c.fs, QueryV::DirectiveValue(crate::symbols::lit("@profile"), name), n);
    if s.len() > 0 {
        s
    } else if p.len() > 0 {
        p
    } else {
        corpus_locs(c.fs, QueryV::KindName(DefinitionKind::Tag, name), n)
    }
}

pub open spec fn type_entries(c: NavCtx, es: Seq<EntryV>, i: int) -> Seq<LocV>
    decreases es.len() - i,
{
    if i < 0 || i >= es.len() {
        seq![]
    } else {
        match meta_name(c, es[i]) {
            Some(name) => type_like(c, name),
            None => type_entries(c, es, i + 1),
        }
    }
}

pub open spec fn type_node(c: NavCtx, n: NodeV) -> Seq<LocV> {
    match n {
        NodeV::Mapping { entries, .. } => type_entries(c, entries, 0),
        NodeV::Tag { name, span, .. } => match crate::outline::tag_span(norm_of(cur_of(c)), cur_of(c).file_id, span) {
            Some(ts) => if contains(ts, c.offset) {
                type_like(c, name)
            } else {
                seq![]
            },
            None => seq![],
        },
        _ => seq![],
    }
}

/// Where a directive's trimmed value stands in its line.
pub open spec fn value_span(norm: Seq<u8>, fid: FileId, span: SourceSpan, value: Option<Seq<u8>>) -> Option<SourceSpan> {
    match (source_slice(norm, fid, span), value) {
        (Some(line), Some(v)) => {
            let (a, b) = trim_range(v, 0, v.len() as int);
            let t = v.subrange(a, b);
            match find_pat(line, 0, line.len() as int, t) {
                Some(p) => Some(at(span.file_id, span.start + p, span.start + p + t.len())),
                None => None,
            }
        },
        _ => None,
    }
}

pub open spec fn type_directive(c: NavCtx, name: Seq<u8>, span: SourceSpan, value: Option<Seq<u8>>) -> Seq<LocV> {
    if name == crate::symbols::lit("@schema") || name == crate::symbols::lit("@profile") {
        match (value_span(norm_of(cur_of(c)), cur_of(c).file_id, span, value), value) {
            (Some(vs), Some(v)) => if contains(vs, c.offset) {
                corpus_locs(c.fs, QueryV::DirectiveValue(name, normalized_name(v)), c.fs.len() as int)
            } else {
                seq![]
            },
            _ => seq![],
        }
    } else {
        seq![]
    }
}

pub open spec fn type_item(c: NavCtx, i: DocItemV) -> Seq<LocV> {
    match i {
        DocItemV::Directive { name, span, value } => type_directive(c, name, span, value),
        DocItemV::Node(n) => type_node(c, n),
        _ => seq![],
    }
}

pub open spec fn type_items(c: NavCtx, items: Seq<DocItemV>, i: int) -> Seq<LocV>
    decreases items.len() - i,
{
    if i < 0 || i >= items.len() {
        seq![]
    } else if type_item(c, items[i]).len() > 0 {
        type_item(c, items[i])
    } else {
        type_items(c, items, i + 1)
    }
}

pub open spec fn type_docs(c: NavCtx, docs: Seq<DocV>, d: int) -> Seq<LocV>
    decreases docs.len() - d,
{
    if d < 0 || d >= docs.len() {
        seq![]
    } else if type_items(c, docs[d].items, 0).len() > 0 {
        type_items(c, docs[d].items, 0)
    } else {
        type_docs(c, docs, d + 1)
    }
}

/// The locations with each run of equal neighbours kept once.
pub open spec fn dedup_locs(s: Seq<LocV>) -> Seq<LocV>
    decreases s.len(),
{
    if s.len() <= 1 {
        s
    } else if s.last() == s[s.len() - 2] {
        dedup_locs(s.drop_last())
    } else {
        dedup_locs(s.drop_last()).push(s.last())
    }
}

/// "Go to type definition": for the first item whose lookup finds something, where its
/// schema or profile value, metadata name or tag name is declared, neighbours kept once.
pub open spec fn goto_type_definition_spec(
    cur: FileV,
    files: Seq<FileV>,
    offset: int,
    folders: Seq<Seq<char>>,
    config: LumalsConfig,
) -> Seq<LocV> {
    dedup_locs(type_docs(NavCtx { fs: nav_corpus(cur, files), offset, folders, config }, docs_of(cur), 0))
}

fn type_like_exec(entries: &Vec<Entry>, name: &[u8], Ghost(c): Ghost<NavCtx>) -> (r: Vec<Location>)
    requires
        entries_ok(entries@, c.fs),
    ensures
        locs_view(r@) == type_like(c, name@),
{
    let mut nb: Vec<u8> = Vec::new();
    crate::text::push_range(&mut nb, name, 0, name.len());
    assert(nb@ =~= name@);
    let q = Query::DirectiveValue(bytes_of("@schema"), nb.clone());
    let s = corpus_locs_exec(entries, &q, Ghost(c.fs));
    assert(locs_view(s@).len() == s@.len());
    if s.len() > 0 {
        return s;
    }
    let q = Query::DirectiveValue(bytes_of("@profile"), nb.clone());
    let p = corpus_locs_exec(entries, &q, Ghost(c.fs));
    assert(locs_view(p@).len() == p@.len());
    if p.len() > 0 {
        return p;
    }
    let q = Query::KindName(DefinitionKind::Tag, nb);
    corpus_locs_exec(entries, &q, Ghost(c.fs))
}

pub(crate) fn value_span_exec(source: &SourceText, span: SourceSpan, value: &Option<String>) -> (r: Option<SourceSpan>)
    ensures
        r == value_span(source.bytes(), source.file_id, span, crate::ast::opt_text(*value)),
{
    let line = match source.slice(span) {
        Some(l) => l.as_bytes(),
        None => return None,
    };
    let v = match value {
        Some(v) => v.as_str().as_bytes(),
        None => return None,
    };
    let a = crate::text::trim_start_at(v, 0, v.len());
    let b = crate::text::trim_end_at(v, a, v.len());
    let t = vstd::slice::slice_subrange(v, a, b);
    proof {
        lemma_find_pat_bounds(line@, 0, line@.len() as int, t@);
    }
    match find_pat_exec(line, 0, line.len(), t) {
        Some(p) => Some(SourceSpan::new(span.file_id, span.start + p, span.start + p + t.len())),
        None => None,
    }
}

fn type_item_exec(
    item: &DocumentItem,
    source: &SourceText,
    entries: &Vec<Entry>,
    offset: usize,
    folders: &[String],
    config: &LumalsConfig,
    Ghost(c): Ghost<NavCtx>,
) -> (r: Vec<Location>)
    requires
        ctx_ok(entries@, *source, offset, folders@, *config, c),
    ensures
        locs_view(r@) == type_item(c, item.view_item()),
{
    let empty: Vec<Location> = Vec::new();
    assert(locs_view(empty@) =~= Seq::<LocV>::empty());
    match item {
        DocumentItem::Directive(d) => {
            let nb = d.name.as_str().as_bytes();
            let schema = bytes_of("@schema");
            let profile = bytes_of("@profile");
            if !(bytes_eq(nb, schema.as_slice()) || bytes_eq(nb, profile.as_slice())) {
                return empty;
            }
            match (value_span_exec(source, d.span, &d.value), &d.value) {
                (Some(vs), Some(v)) => {
                    if vs.start <= offset && offset < vs.end {
                        let nv = normalized_name_exec(v.as_str().as_bytes());
                        let mut dn: Vec<u8> = Vec::new();
                        crate::text::push_range(&mut dn, nb, 0, nb.len());
                        assert(dn@ =~= nb@);
                        let q = Query::DirectiveValue(dn, nv);
                        corpus_locs_exec(entries, &q, Ghost(c.fs))
                    } else {
                        empty
                    }
                },
                _ => empty,
            }
        },
        DocumentItem::Node(n) => match n {
            Node::Mapping(m) => {
                let ghost es = m.entries@.map_values(|e: MappingEntry| e.view_entry());
                let b = source.text.as_str().as_bytes();
                let mut i: usize = 0;
                while i < m.entries.len()
                    invariant
                        ctx_ok(entries@, *source, offset, folders@, *config, c),
                        i <= m.entries@.len(),
                        es == m.entries@.map_values(|e: MappingEntry| e.view_entry()),
                        item.view_item() == DocItemV::Node(NodeV::Mapping { span: m.span, entries: es }),
                        b@ == source.bytes(),
                        type_entries(c, es, i as int) == type_entries(c, es, 0),
                    decreases m.entries@.len() - i,
                {
                    let e = &m.entries[i];
                    assert(es[i as int] == e.view_entry());
                    let ms = crate::outline::metadata_span_exec(b, source.file_id, e);
                    let mut name: Option<&str> = None;
                    if let Some(sp) = ms {
                        if sp.start <= offset && offset < sp.end {
                            name = source.slice(sp);
                        }
                    }
                    assert(match meta_name(c, es[i as int]) {
                        Some(x) => name matches Some(y) && utf8(y@) == x,
                        None => name is None,
                    });
                    if let Some(nm) = name {
                        return type_like_exec(entries, nm.as_bytes(), Ghost(c));
                    }
                    i = i + 1;
                }
                empty
            },
            Node::Tag(t) => {
                let b = source.text.as_str().as_bytes();
                match crate::outline::tag_span_exec(b, source.file_id, t.span) {
                    Some(ts) => {
                        if ts.start <= offset && offset < ts.end {
                            type_like_exec(entries, t.name.as_str().as_bytes(), Ghost(c))
                        } else {
                            empty
                        }
                    },
                    None => empty,
                }
            },
            _ => empty,
        },
        _ => empty,
    }
}

fn type_docs_exec(
    documents: &Vec<Document>,
    source: &SourceText,
    entries: &Vec<Entry>,
    offset: usize,
    folders: &[String],
    config: &LumalsConfig,
    Ghost(c): Ghost<NavCtx>,
) -> (r: Vec<Location>)
    requires
        ctx_ok(entries@, *source, offset, folders@, *config, c),
    ensures
        locs_view(r@) == type_docs(c, documents@.map_values(|d: Document| d.view_doc()), 0),
{
    let ghost docs = documents@.map_values(|d: Document| d.view_doc());
    let mut d: usize = 0;
    while d < documents.len()
        invariant
            ctx_ok(entries@, *source, offset, folders@, *config, c),
            d <= documents@.len(),
            docs == documents@.map_values(|d: Document| d.view_doc()),
            type_docs(c, docs, d as int) == type_docs(c, docs, 0),
        decreases documents@.len() - d,
    {
        let doc = &documents[d];
        let ghost items = doc.view_doc().items;
        assert(docs[d as int] == doc.view_doc());
        let mut i: usize = 0;
        while i < doc.items.len()
            invariant
                ctx_ok(entries@, *source, offset, folders@, *config, c),
                i <= doc.items@.len(),
                items == doc.view_doc().items,
                items.len() == doc.items@.len(),
                type_items(c, items, i as int) == type_items(c, items, 0),
                docs == documents@.map_values(|d: Document| d.view_doc()),
                d < docs.len(),
                docs[d as int].items == items,
                type_docs(c, docs, d as int) == type_docs(c, docs, 0),
            decreases doc.items@.len() - i,
        {
            assert(items[i as int] == doc.items@[i as int].view_item());
            let r = type_item_exec(&doc.items[i], source, entries, offset, folders, config, Ghost(c));
            assert(locs_view(r@).len() == r@.len());
            if r.len() > 0 {
                assert(type_items(c, items, i as int) == locs_view(r@));
                assert(type_docs(c, docs, d as int) == locs_view(r@));
                return r;
            }
            i = i + 1;
        }
        d = d + 1;
    }
    let r: Vec<Location> = Vec::new();
    assert(locs_view(r@) =~= Seq::<LocV>::empty());
    r
}

pub(crate) fn same_location(a: &Location, b: &Location) -> (r: bool)
    ensures
        r == (loc_view(*a) == loc_view(*b)),
{
    str_eq(a.uri.as_str(), b.uri.as_str()) && a.range.start.line == b.range.start.line
        && a.range.start.character == b.range.start.character && a.range.end.line == b.range.end.line
        && a.range.end.character == b.range.end.character
}

proof fn lemma_dedup_step(s: Seq<LocV>, k: int)
    requires
        1 <= k < s.len(),
    ensures
        dedup_locs(s.take(k + 1)) == if s[k] == s[k - 1] {
            dedup_locs(s.take(k))
        } else {
            dedup_locs(s.take(k)).push(s[k])
        },
{
    assert(s.take(k + 1).drop_last() =~= s.take(k));
}

fn dedup_exec(v: Vec<Location>) -> (r: Vec<Location>)
    ensures
        locs_view(r@) == dedup_locs(locs_view(v@)),
{
    let ghost s = locs_view(v@);
    let mut out: Vec<Location> = Vec::new();
    if v.len() == 0 {
        assert(locs_view(out@) =~= dedup_locs(s));
        return out;
    }
    out.push(Location { uri: v[0].uri.clone(), range: v[0].range });
    assert(s.take(1).len() == 1);
    assert(s.take(1)[0] == loc_view(v@[0]));
    assert(locs_view(out@) =~= dedup_locs(s.take(1)));
    let mut k: usize = 1;
    while k < v.len()
        invariant
            1 <= k <= v@.len(),
            s == locs_view(v@),
            locs_view(out@) == dedup_locs(s.take(k as int)),
        decreases v@.len() - k,
    {
        proof {
            lemma_dedup_step(s, k as int);
        }
        assert(s[k as int] == loc_view(v@[k as int]));
        assert(s[k - 1] == loc_view(v@[k - 1]));
        if !same_location(&v[k], &v[k - 1]) {
            let ghost prev = locs_view(out@);
            let x = Location { uri: v[k].uri.clone(), range: v[k].range };
            out.push(x);
            assert(locs_view(out@) =~= prev.push(s[k as int]));
        }
        k = k + 1;
    }
    assert(s.take(v@.len() as int) =~= s);
    out
}

/// "Go to type definition": with the current file first and then `files` as the workspace,
/// for the first item whose lookup finds something, the `@schema` or `@profile` directives
/// or tags that declare the name under the offset.
pub fn goto_type_definition(
    uri: &str,
    text: &str,
    file_id: FileId,
    offset: usize,
    files: &[(String, String, FileId)],
    folder_uris: &[String],
    config: &LumalsConfig,
) -> (r: Vec<Location>)
    requires
        corpus_ok(nav_corpus(FileV { uri: uri@, text: text@, file_id }, files_v(files@))),
    ensures
        locs_view(r@) == goto_type_definition_spec(
            FileV { uri: uri@, text: text@, file_id },
            files_v(files@),
            offset as int,
            strings_view(folder_uris@),
            *config,
        ),
{
    let ghost cur = FileV { uri: uri@, text: text@, file_id };
    let ghost c = NavCtx { fs: nav_corpus(cur, files_v(files@)), offset: offset as int, folders: strings_view(folder_uris@), config: *config };
    assert(c.fs[0] == cur);
    assert(lexable(cur));
    let parsed = parse_fallback(file_id, uri, text);
    let ParsedFile::Fallback(ff) = &parsed.file;
    let entries = build_corpus(uri, text, file_id, files);
    let found = type_docs_exec(&ff.ast.documents, &parsed.source, &entries, offset, folder_uris, config, Ghost(c));
    dedup_exec(found)
}


/// Whether a file can stand in the workspace that navigation searches: its text lexes and
/// its root converts to a range of its text.
pub fn workspace_file_ok(uri: &str, text: &str, file_id: FileId) -> (r: bool)
    ensures
        r == (lexable(FileV { uri: uri@, text: text@, file_id }) && root_ok(FileV { uri: uri@, text: text@, file_id })),
{
    if !crate::lexer::text_lexes(text) {
        return false;
    }
    let e = build_entry(uri, text, file_id);
    span_range_exec(text, e.root).is_some()
}

} // verus!
