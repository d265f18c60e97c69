//! Where the hints of directives and bindings are anchored.
use vstd::prelude::*;
use vstd::utf8::valid_utf8;

use crate::code_actions::common::source_slice;
use crate::semantic::{as_word, trim_range, unquoted};
use crate::syntax::{is_boundary, FileId, SourceSpan, SourceText};
use crate::text::{
    char_boundary, find_pat, find_pat_exec, lemma_find_pat_bounds, lemma_rfind_pat_bounds, lemma_skip_ws_back_bounds,
    lemma_skip_ws_bounds, lemma_str_valid, rfind_pat, rfind_pat_exec, skip_ws, skip_ws_back, trim_end_at,
    trim_start_at, utf8,
};

verus! {

/// The value of a directive: after its name in its line, from the first non-blank
/// character to the end of the line.
pub open spec fn dir_value_span(b: Seq<u8>, file_id: FileId, name: Seq<u8>, span: SourceSpan) -> Option<SourceSpan> {
    match source_slice(b, file_id, span) {
        None => None,
        Some(line) => match find_pat(line, 0, line.len() as int, name) {
            None => None,
            Some(p) => {
                let no = p + name.len();
                if !char_boundary(line, no) {
                    None
                } else {
                    let ts = skip_ws(line, no, line.len() as int);
                    if ts == line.len() {
                        None
                    } else {
                        Some(SourceSpan { file_id: span.file_id, start: (span.start + ts) as usize, end: span.end })
                    }
                }
            },
        },
    }
}

/// Where `part` stands in `full` (which starts at `base.start`), without one quote at each
/// end that it has.
pub open spec fn slice_span(base: SourceSpan, full: Seq<u8>, part: Seq<u8>) -> Option<SourceSpan> {
    match find_pat(full, 0, full.len() as int, part) {
        None => None,
        Some(start) => {
            let end = start + part.len();
            let (qs, qe) = unquoted(part, 0, part.len() as int);
            let prefix: int = if start < full.len() && (full[start] == 0x27 || full[start] == 0x22) {
                1
            } else {
                0
            };
            let suffix: int = if qe - qs != part.len() {
                1
            } else {
                0
            };
            Some(
                SourceSpan {
                    file_id: base.file_id,
                    start: (base.start + start + prefix) as usize,
                    end: (base.start + end - suffix) as usize,
                },
            )
        },
    }
}

/// Where a directive's import target stands: the value, or its part before the last
/// ` as `, without quotes.
pub open spec fn dir_target_span(b: Seq<u8>, file_id: FileId, name: Seq<u8>, span: SourceSpan) -> Option<SourceSpan> {
    match dir_value_span(b, file_id, name, span) {
        None => None,
        Some(vs) => match source_slice(b, file_id, vs) {
            None => None,
            Some(v) => {
                let (s, e) = trim_range(v, 0, v.len() as int);
                let full = v.subrange(s, e);
                match rfind_pat(full, 0, full.len() as int, as_word()) {
                    Some(q) => {
                        let (ps, pe) = trim_range(full, 0, q);
                        slice_span(vs, full, full.subrange(ps, pe))
                    },
                    None => slice_span(vs, full, full),
                }
            },
        },
    }
}

/// Where a binding's name first stands in its line.
pub open spec fn let_name_span(b: Seq<u8>, file_id: FileId, name: Seq<u8>, span: SourceSpan) -> Option<SourceSpan> {
    match source_slice(b, file_id, span) {
        None => None,
        Some(line) => match find_pat(line, 0, line.len() as int, name) {
            None => None,
            Some(p) => Some(
                SourceSpan {
                    file_id: span.file_id,
                    start: (span.start + p) as usize,
                    end: (span.start + p + name.len()) as usize,
                },
            ),
        },
    }
}

/// The text of a value span without white space at either end.
pub open spec fn trimmed_value(b: Seq<u8>, file_id: FileId, span: SourceSpan) -> Option<Seq<u8>> {
    match source_slice(b, file_id, span) {
        None => None,
        Some(t) => {
            let ts = skip_ws(t, 0, t.len() as int);
            let te = skip_ws_back(t, 0, t.len() as int);
            source_slice(
                b,
                file_id,
                SourceSpan { file_id: span.file_id, start: (span.start + ts) as usize, end: (span.start + te) as usize },
            )
        },
    }
}

fn slice_bytes(source: &SourceText, span: SourceSpan) -> (r: Option<Vec<u8>>)
    ensures
        match source_slice(source.bytes(), source.file_id, span) {
            Some(t) => r matches Some(v) && v@ == t && valid_utf8(t),
            None => r is None,
        },
{
    match source.slice(span) {
        None => None,
        Some(t) => {
            let mut out: Vec<u8> = Vec::new();
            let tb = t.as_bytes();
            crate::text::push_range(&mut out, tb, 0, tb.len());
            proof {
                assert(tb@.subrange(0, tb@.len() as int) =~= tb@);
                lemma_str_valid(t@);
            }
            Some(out)
        },
    }
}

pub fn dir_value_span_exec(source: &SourceText, name: &str, span: SourceSpan) -> (r: Option<SourceSpan>)
    ensures
        r == dir_value_span(source.bytes(), source.file_id, utf8(name@), span),
{
    let line = match slice_bytes(source, span) {
        Some(l) => l,
        None => {
            return None;
        },
    };
    let nb = name.as_bytes();
    let n = line.len();
    let p = match find_pat_exec(line.as_slice(), 0, n, nb) {
        Some(p) => p,
        None => {
            return None;
        },
    };
    proof {
        lemma_find_pat_bounds(line@, 0, n as int, nb@);
    }
    let no = p + nb.len();
    if !is_boundary(line.as_slice(), no) {
        return None;
    }
    proof {
        lemma_skip_ws_bounds(line@, no as int, n as int);
    }
    let ts = trim_start_at(line.as_slice(), no, n);
    if ts == n {
        return None;
    }
    Some(SourceSpan::new(span.file_id, span.start + ts, span.end))
}

fn slice_span_exec(base: SourceSpan, full: &[u8], part: &[u8]) -> (r: Option<SourceSpan>)
    requires
        base.start + full@.len() <= usize::MAX,
    ensures
        r == slice_span(base, full@, part@),
{
    let start = match find_pat_exec(full, 0, full.len(), part) {
        Some(s) => s,
        None => {
            return None;
        },
    };
    proof {
        lemma_find_pat_bounds(full@, 0, full@.len() as int, part@);
    }
    let end = start + part.len();
    let stripped = part.len() >= 2 && ((part[0] == 0x27 && part[part.len() - 1] == 0x27) || (part[0] == 0x22
        && part[part.len() - 1] == 0x22));
    let prefix: usize = if start < full.len() && (full[start] == 0x27 || full[start] == 0x22) { 1 } else { 0 };
    let suffix: usize = if stripped { 1 } else { 0 };
    Some(SourceSpan::new(base.file_id, base.start + start + prefix, base.start + end - suffix))
}

pub fn dir_target_span_exec(source: &SourceText, name: &str, span: SourceSpan) -> (r: Option<SourceSpan>)
    ensures
        r == dir_target_span(source.bytes(), source.file_id, utf8(name@), span),
{
    let vs = match dir_value_span_exec(source, name, span) {
        Some(v) => v,
        None => {
            return None;
        },
    };
    let v = match slice_bytes(source, vs) {
        Some(v) => v,
        None => {
            return None;
        },
    };
    let n = v.len();
    proof {
        lemma_skip_ws_bounds(v@, 0, n as int);
        lemma_skip_ws_back_bounds(v@, skip_ws(v@, 0, n as int), n as int);
    }
    let s = trim_start_at(v.as_slice(), 0, n);
    let e = trim_end_at(v.as_slice(), s, n);
    let mut full: Vec<u8> = Vec::new();
    crate::text::push_range(&mut full, v.as_slice(), s, e);
    assert(full@ =~= v@.subrange(s as int, e as int));
    proof {
        assert(vs.start + v@.len() == vs.end);
    }
    let pat: [u8; 4] = [0x20, 0x61, 0x73, 0x20];
    proof {
        assert(pat@ =~= as_word());
    }
    let fl = full.len();
    match rfind_pat_exec(full.as_slice(), 0, fl, pat.as_slice()) {
        Some(q) => {
            proof {
                lemma_rfind_pat_bounds(full@, 0, fl as int, as_word());
                lemma_skip_ws_bounds(full@, 0, q as int);
                lemma_skip_ws_back_bounds(full@, skip_ws(full@, 0, q as int), q as int);
            }
            let ps = trim_start_at(full.as_slice(), 0, q);
            let pe = trim_end_at(full.as_slice(), ps, q);
            let mut part: Vec<u8> = Vec::new();
            crate::text::push_range(&mut part, full.as_slice(), ps, pe);
            slice_span_exec(vs, full.as_slice(), part.as_slice())
        },
        None => slice_span_exec(vs, full.as_slice(), full.as_slice()),
    }
}

pub fn let_name_span_exec(source: &SourceText, name: &str, span: SourceSpan) -> (r: Option<SourceSpan>)
    ensures
        r == let_name_span(source.bytes(), source.file_id, utf8(name@), span),
{
    let line = match slice_bytes(source, span) {
        Some(l) => l,
        None => {
            return None;
        },
    };
    let nb = name.as_bytes();
    let n = line.len();
    match find_pat_exec(line.as_slice(), 0, n, nb) {
        None => None,
        Some(p) => {
            proof {
                lemma_find_pat_bounds(line@, 0, n as int, nb@);
            }
            Some(SourceSpan::new(span.file_id, span.start + p, span.start + p + nb.len()))
        },
    }
}

pub fn trimmed_value_exec(source: &SourceText, span: SourceSpan) -> (r: Option<Vec<u8>>)
    ensures
        match trimmed_value(source.bytes(), source.file_id, span) {
            Some(t) => r matches Some(v) && v@ == t && valid_utf8(t),
            None => r is None,
        },
{
    let t = match slice_bytes(source, span) {
        Some(t) => t,
        None => {
            return None;
        },
    };
    let n = t.len();
    let ts = trim_start_at(t.as_slice(), 0, n);
    let te = trim_end_at(t.as_slice(), 0, n);
    proof {
        assert(span.start + n == span.end);
    }
    slice_bytes(source, SourceSpan::new(span.file_id, span.start + ts, span.start + te))
}

} // verus!
