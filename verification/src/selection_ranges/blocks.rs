//! The blocks around a line: a key's pair with its indented value, a list item with its
//! own lines, and the blocks that hold them.
use vstd::prelude::*;

use crate::folding::lines::{
    blank, dash_pat, doc_boundary, hash_pat, is_blank, is_doc_boundary, lines_ok, starts, starts_with_dash,
    starts_with_hash, FLine,
};
use crate::syntax::{FileId, SourceSpan};
use crate::text::{
    find_byte, find_byte_exec, lemma_find_byte_bounds, lemma_skip_ws_back_bounds, lemma_skip_ws_bounds,
    matches_at, matches_at_exec, skip_ws, skip_ws_back, trim_end_at, trim_start_at,
};

verus! {

/// "@"
pub open spec fn at_pat() -> Seq<u8> {
    seq![0x40u8]
}

/// "let "
pub open spec fn let_pat() -> Seq<u8> {
    seq![0x6cu8, 0x65u8, 0x74u8, 0x20u8]
}

pub open spec fn has_colon(b: Seq<u8>, l: FLine) -> bool {
    find_byte(b, l.ts as int, l.te as int, 0x3a) is Some
}

/// A comment, directive, binding, list item or key line.
pub open spec fn structural(b: Seq<u8>, l: FLine) -> bool {
    starts(b, l, hash_pat()) || starts(b, l, at_pat()) || starts(b, l, let_pat()) || starts(b, l, dash_pat())
        || has_colon(b, l)
}

pub open spec fn span_of(file_id: FileId, s: int, e: int) -> SourceSpan {
    SourceSpan { file_id, start: s as usize, end: e as usize }
}

/// The last line of the block that line `index` opens: the following lines indented
/// deeper, trailing blank lines left out.
pub open spec fn be_scan(b: Seq<u8>, ls: Seq<FLine>, base: int, index: int, j: int, last: int) -> int
    decreases ls.len() - j,
{
    if j < 0 || j >= ls.len() {
        last
    } else if doc_boundary(b, ls[j]) {
        last
    } else if blank(ls[j]) {
        be_scan(
            b,
            ls,
            base,
            index,
            j + 1,
            if last > index {
                j
            } else {
                last
            },
        )
    } else if ls[j].indent <= base {
        last
    } else {
        be_scan(b, ls, base, index, j + 1, j)
    }
}

pub open spec fn back_over_blank(ls: Seq<FLine>, index: int, last: int) -> int
    decreases last - index,
{
    if last > index && last < ls.len() && blank(ls[last]) {
        back_over_blank(ls, index, last - 1)
    } else {
        last
    }
}

pub open spec fn block_end_index(b: Seq<u8>, ls: Seq<FLine>, index: int) -> int {
    back_over_blank(ls, index, be_scan(b, ls, ls[index].indent as int, index, index + 1, index))
}

/// The span from line `index` to the end of its block, for a key or list item line.
pub open spec fn pair_block_span(b: Seq<u8>, ls: Seq<FLine>, index: int, file_id: FileId) -> Option<SourceSpan> {
    let l = ls[index];
    if starts(b, l, hash_pat()) || starts(b, l, at_pat()) || starts(b, l, let_pat()) {
        None
    } else if starts(b, l, dash_pat()) || has_colon(b, l) {
        Some(span_of(file_id, l.start as int, ls[block_end_index(b, ls, index)].end as int))
    } else {
        None
    }
}

/// The value of a key line with its block: from the key for a block scalar (`|`, `>`),
/// from the value otherwise, from the line's end when the value is on the lines below.
pub open spec fn block_value_span(b: Seq<u8>, ls: Seq<FLine>, index: int, file_id: FileId) -> Option<SourceSpan> {
    let l = ls[index];
    match find_byte(b, l.start as int, l.end as int, 0x3a) {
        None => None,
        Some(c) => {
            let vs = skip_ws(b, c + 1, l.end as int);
            let be = ls[block_end_index(b, ls, index)].end as int;
            if vs == l.end {
                Some(span_of(file_id, l.end as int, be))
            } else if b[vs] == 0x7c || b[vs] == 0x3e {
                Some(span_of(file_id, l.ts as int, be))
            } else {
                Some(span_of(file_id, vs, be))
            }
        },
    }
}

pub open spec fn contains(span: SourceSpan, offset: int) -> bool {
    span.start <= offset < span.end
}

pub open spec fn contains_inclusive(span: SourceSpan, offset: int) -> bool {
    span.start <= offset <= span.end
}

/// The nearest line above line `k` that is less indented and opens a block around the
/// offset: its index, its value and its pair.
pub open spec fn owner_from(b: Seq<u8>, ls: Seq<FLine>, k: int, offset: int, file_id: FileId, index: int) -> Option<
    (int, Option<SourceSpan>, SourceSpan),
>
    decreases index,
{
    if index <= 0 || index > k {
        None
    } else {
        let i = index - 1;
        let h = ls[i];
        if blank(h) || doc_boundary(b, h) || h.indent >= ls[k].indent {
            owner_from(b, ls, k, offset, file_id, i)
        } else {
            match pair_block_span(b, ls, i, file_id) {
                None => owner_from(b, ls, k, offset, file_id, i),
                Some(pair) => if !contains_inclusive(pair, offset) {
                    owner_from(b, ls, k, offset, file_id, i)
                } else {
                    Some((i, block_value_span(b, ls, i, file_id), pair))
                },
            }
        }
    }
}

pub open spec fn owner_block(b: Seq<u8>, ls: Seq<FLine>, k: int, offset: int, file_id: FileId) -> Option<
    (int, Option<SourceSpan>, SourceSpan),
> {
    if structural(b, ls[k]) {
        None
    } else {
        owner_from(b, ls, k, offset, file_id, k)
    }
}

/// The nearest line above `child` that is less indented than `indent` and whose block
/// reaches `target_end` and starts before the child.
pub open spec fn parent_from(
    b: Seq<u8>,
    ls: Seq<FLine>,
    child: int,
    indent: int,
    target_end: int,
    file_id: FileId,
    index: int,
) -> Option<(int, SourceSpan)>
    decreases index,
{
    if index <= 0 || index > child {
        None
    } else {
        let i = index - 1;
        let h = ls[i];
        if blank(h) || doc_boundary(b, h) || h.indent >= indent {
            parent_from(b, ls, child, indent, target_end, file_id, i)
        } else {
            match pair_block_span(b, ls, i, file_id) {
                None => parent_from(b, ls, child, indent, target_end, file_id, i),
                Some(span) => if span.end >= target_end && span.start < ls[child].start {
                    Some((i, span))
                } else {
                    parent_from(b, ls, child, indent, target_end, file_id, i)
                },
            }
        }
    }
}

/// The blocks around line `child`, innermost first.
pub open spec fn ancestors(b: Seq<u8>, ls: Seq<FLine>, child: int, target_end: int, file_id: FileId) -> Seq<SourceSpan>
    decreases child,
{
    if child < 0 || child >= ls.len() {
        seq![]
    } else {
        match parent_from(b, ls, child, ls[child].indent as int, target_end, file_id, child) {
            None => seq![],
            Some((p, span)) => {
                proof {
                    lemma_parent_from(b, ls, child, ls[child].indent as int, target_end, file_id, child);
                }
                seq![span] + ancestors(b, ls, p, target_end, file_id)
            },
        }
    }
}

pub proof fn lemma_parent_from(
    b: Seq<u8>,
    ls: Seq<FLine>,
    child: int,
    indent: int,
    target_end: int,
    file_id: FileId,
    index: int,
)
    ensures
        parent_from(b, ls, child, indent, target_end, file_id, index) matches Some((p, _)) ==> 0 <= p < index
            && p < child,
    decreases index,
{
    if index > 0 && index <= child {
        lemma_parent_from(b, ls, child, indent, target_end, file_id, index - 1);
    }
}

/// The key, value and whole line of a key line, key and value only where the offset is.
pub open spec fn mapping_line_spans(b: Seq<u8>, l: FLine, offset: int, file_id: FileId) -> Option<
    (Option<SourceSpan>, Option<SourceSpan>, SourceSpan),
> {
    if starts(b, l, dash_pat()) || starts(b, l, hash_pat()) || !has_colon(b, l) {
        None
    } else {
        match find_byte(b, l.start as int, l.end as int, 0x3a) {
            None => None,
            Some(c) => {
                let key = span_of(file_id, l.ts as int, skip_ws_back(b, l.ts as int, c));
                let vs = skip_ws(b, c + 1, l.end as int);
                let value = if vs == l.end {
                    None
                } else {
                    Some(span_of(file_id, vs, l.end as int))
                };
                Some(
                    (
                        if contains(key, offset) {
                            Some(key)
                        } else {
                            None
                        },
                        match value {
                            Some(v) => if contains(v, offset) {
                                Some(v)
                            } else {
                                None
                            },
                            None => None,
                        },
                        span_of(file_id, l.start as int, l.end as int),
                    ),
                )
            },
        }
    }
}

/// The spans a line gives: a comment line; a line inside a block with the block's value,
/// pair and ancestors; or a key line's key, value, line and ancestors.
pub open spec fn line_spans(b: Seq<u8>, ls: Seq<FLine>, k: int, offset: int, file_id: FileId) -> Seq<SourceSpan> {
    let l = ls[k];
    if starts(b, l, hash_pat()) {
        seq![span_of(file_id, l.start as int, l.end as int)]
    } else {
        match owner_block(b, ls, k, offset, file_id) {
            Some((h, value, pair)) => (match value {
                Some(v) => if contains(v, offset) {
                    seq![v]
                } else {
                    seq![]
                },
                None => seq![],
            }) + seq![pair] + ancestors(b, ls, h, pair.end as int, file_id),
            None => match mapping_line_spans(b, l, offset, file_id) {
                None => seq![],
                Some((key, value, pair)) => (match key {
                    Some(x) => seq![x],
                    None => seq![],
                }) + (match value {
                    Some(x) => seq![x],
                    None => seq![],
                }) + seq![pair] + ancestors(b, ls, k, pair.end as int, file_id),
            },
        }
    }
}

// ---------------------------------------------------------------------------
// Executable
pub fn has_colon_exec(b: &[u8], l: FLine) -> (r: bool)
    requires
        l.ts <= l.te <= b@.len(),
    ensures
        r == has_colon(b@, l),
{
    find_byte_exec(b, l.ts, l.te, 0x3a).is_some()
}

fn starts_with_at(b: &[u8], l: FLine) -> (r: bool)
    requires
        l.te <= b@.len(),
    ensures
        r == starts(b@, l, at_pat()),
{
    let pat: [u8; 1] = [0x40];
    proof {
        assert(pat@ =~= at_pat());
    }
    matches_at_exec(b, l.ts, l.te, pat.as_slice())
}

fn starts_with_let(b: &[u8], l: FLine) -> (r: bool)
    requires
        l.te <= b@.len(),
    ensures
        r == starts(b@, l, let_pat()),
{
    let pat: [u8; 4] = [0x6c, 0x65, 0x74, 0x20];
    proof {
        assert(pat@ =~= let_pat());
    }
    matches_at_exec(b, l.ts, l.te, pat.as_slice())
}

pub fn is_structural(b: &[u8], l: FLine) -> (r: bool)
    requires
        l.ts <= l.te <= b@.len(),
    ensures
        r == structural(b@, l),
{
    starts_with_hash(b, l) || starts_with_at(b, l) || starts_with_let(b, l) || starts_with_dash(b, l)
        || has_colon_exec(b, l)
}

proof fn lemma_be_scan(b: Seq<u8>, ls: Seq<FLine>, base: int, index: int, j: int, last: int)
    requires
        0 <= index <= last < j <= ls.len(),
    ensures
        last <= be_scan(b, ls, base, index, j, last) < ls.len(),
    decreases ls.len() - j,
{
    if j < ls.len() {
        lemma_be_scan(b, ls, base, index, j + 1, if last > index { j } else { last });
        lemma_be_scan(b, ls, base, index, j + 1, j);
    }
}

proof fn lemma_back_over_blank(ls: Seq<FLine>, index: int, last: int)
    requires
        0 <= index <= last < ls.len(),
    ensures
        index <= back_over_blank(ls, index, last) <= last,
    decreases last - index,
{
    if last > index && blank(ls[last]) {
        lemma_back_over_blank(ls, index, last - 1);
    }
}

pub fn block_end_index_exec(b: &[u8], ls: &Vec<FLine>, index: usize) -> (r: usize)
    requires
        lines_ok(b@, ls@),
        index < ls@.len(),
    ensures
        r == block_end_index(b@, ls@, index as int),
        index <= r < ls@.len(),
{
    let base = ls[index].indent;
    let n = ls.len();
    let mut last = index;
    let mut j = index + 1;
    proof {
        lemma_be_scan(b@, ls@, base as int, index as int, j as int, last as int);
    }
    while j < n
        invariant
            index <= last < j <= n,
            n == ls@.len(),
            lines_ok(b@, ls@),
            base == ls@[index as int].indent,
            be_scan(b@, ls@, base as int, index as int, j as int, last as int) == be_scan(
                b@,
                ls@,
                base as int,
                index as int,
                index + 1,
                index as int,
            ),
        ensures
            index <= last < n,
            be_scan(b@, ls@, base as int, index as int, index + 1, index as int) == last as int,
        decreases n - j,
    {
        let l = ls[j];
        assert(l.te <= b@.len());
        if is_doc_boundary(b, l) {
            break;
        }
        if is_blank(l) {
            if last > index {
                last = j;
            }
            j = j + 1;
            continue;
        }
        if l.indent <= base {
            break;
        }
        last = j;
        j = j + 1;
    }
    proof {
        lemma_back_over_blank(ls@, index as int, last as int);
    }
    let mut k = last;
    while k > index && is_blank(ls[k])
        invariant
            index <= k <= last < ls@.len(),
            back_over_blank(ls@, index as int, k as int) == back_over_blank(ls@, index as int, last as int),
        decreases k,
    {
        k = k - 1;
    }
    k
}

pub fn pair_block_span_exec(b: &[u8], ls: &Vec<FLine>, index: usize, file_id: FileId) -> (r: Option<SourceSpan>)
    requires
        lines_ok(b@, ls@),
        index < ls@.len(),
    ensures
        r == pair_block_span(b@, ls@, index as int, file_id),
{
    let l = ls[index];
    assert(l.te <= b@.len());
    if starts_with_hash(b, l) || starts_with_at(b, l) || starts_with_let(b, l) {
        return None;
    }
    if starts_with_dash(b, l) || has_colon_exec(b, l) {
        let be = block_end_index_exec(b, ls, index);
        return Some(SourceSpan::new(file_id, l.start, ls[be].end));
    }
    None
}

pub fn block_value_span_exec(b: &[u8], ls: &Vec<FLine>, index: usize, file_id: FileId) -> (r: Option<SourceSpan>)
    requires
        lines_ok(b@, ls@),
        index < ls@.len(),
    ensures
        r == block_value_span(b@, ls@, index as int, file_id),
{
    let l = ls[index];
    assert(l.end <= b@.len());
    proof {
        lemma_find_byte_bounds(b@, l.start as int, l.end as int, 0x3a);
    }
    let c = match find_byte_exec(b, l.start, l.end, 0x3a) {
        Some(c) => c,
        None => {
            return None;
        },
    };
    let vs = trim_start_at(b, c + 1, l.end);
    let be = block_end_index_exec(b, ls, index);
    let end = ls[be].end;
    if vs == l.end {
        Some(SourceSpan::new(file_id, l.end, end))
    } else if b[vs] == 0x7c || b[vs] == 0x3e {
        Some(SourceSpan::new(file_id, l.ts, end))
    } else {
        Some(SourceSpan::new(file_id, vs, end))
    }
}

pub fn owner_block_exec(b: &[u8], ls: &Vec<FLine>, k: usize, offset: usize, file_id: FileId) -> (r: Option<
    (usize, Option<SourceSpan>, SourceSpan),
>)
    requires
        lines_ok(b@, ls@),
        k < ls@.len(),
    ensures
        match owner_block(b@, ls@, k as int, offset as int, file_id) {
            None => r is None,
            Some((h, v, p)) => r == Some((h as usize, v, p)) && 0 <= h < k,
        },
{
    let l = ls[k];
    assert(l.te <= b@.len());
    if is_structural(b, l) {
        return None;
    }
    let mut index = k;
    while index > 0
        invariant
            index <= k < ls@.len(),
            lines_ok(b@, ls@),
            !structural(b@, ls@[k as int]),
            l == ls@[k as int],
            owner_from(b@, ls@, k as int, offset as int, file_id, index as int) == owner_block(
                b@,
                ls@,
                k as int,
                offset as int,
                file_id,
            ),
        decreases index,
    {
        let i = index - 1;
        let h = ls[i];
        assert(h.te <= b@.len());
        if !(is_blank(h) || is_doc_boundary(b, h) || h.indent >= l.indent) {
            match pair_block_span_exec(b, ls, i, file_id) {
                None => {},
                Some(pair) => {
                    if pair.start <= offset && offset <= pair.end {
                        let value = block_value_span_exec(b, ls, i, file_id);
                        return Some((i, value, pair));
                    }
                },
            }
        }
        index = i;
    }
    None
}

fn parent_exec(
    b: &[u8],
    ls: &Vec<FLine>,
    child: usize,
    indent: usize,
    target_end: usize,
    file_id: FileId,
) -> (r: Option<(usize, SourceSpan)>)
    requires
        lines_ok(b@, ls@),
        child < ls@.len(),
    ensures
        match parent_from(b@, ls@, child as int, indent as int, target_end as int, file_id, child as int) {
            None => r is None,
            Some((p, s)) => r == Some((p as usize, s)) && 0 <= p < child,
        },
{
    proof {
        lemma_parent_from(b@, ls@, child as int, indent as int, target_end as int, file_id, child as int);
    }
    let mut index = child;
    while index > 0
        invariant
            index <= child < ls@.len(),
            lines_ok(b@, ls@),
            parent_from(b@, ls@, child as int, indent as int, target_end as int, file_id, index as int)
                == parent_from(b@, ls@, child as int, indent as int, target_end as int, file_id, child as int),
        decreases index,
    {
        let i = index - 1;
        let h = ls[i];
        assert(h.te <= b@.len());
        if !(is_blank(h) || is_doc_boundary(b, h) || h.indent >= indent) {
            match pair_block_span_exec(b, ls, i, file_id) {
                None => {},
                Some(span) => {
                    if span.end >= target_end && span.start < ls[child].start {
                        return Some((i, span));
                    }
                },
            }
        }
        index = i;
    }
    None
}

pub fn push_ancestors(
    b: &[u8],
    ls: &Vec<FLine>,
    child: usize,
    target_end: usize,
    file_id: FileId,
    out: &mut Vec<SourceSpan>,
)
    requires
        lines_ok(b@, ls@),
        child < ls@.len(),
    ensures
        final(out)@ == old(out)@ + ancestors(b@, ls@, child as int, target_end as int, file_id),
    decreases child,
{
    match parent_exec(b, ls, child, ls[child].indent, target_end, file_id) {
        None => {
            proof {
                assert(final(out)@ =~= old(out)@ + ancestors(b@, ls@, child as int, target_end as int, file_id));
            }
        },
        Some((p, span)) => {
            out.push(span);
            let ghost mid = out@;
            push_ancestors(b, ls, p, target_end, file_id, out);
            proof {
                assert(final(out)@ =~= old(out)@ + ancestors(b@, ls@, child as int, target_end as int, file_id));
            }
        },
    }
}

pub fn mapping_line_spans_exec(b: &[u8], l: FLine, offset: usize, file_id: FileId) -> (r: Option<
    (Option<SourceSpan>, Option<SourceSpan>, SourceSpan),
>)
    requires
        l.start <= l.ts <= l.te <= l.end <= b@.len(),
        l.ts == skip_ws(b@, l.start as int, l.end as int),
    ensures
        r == mapping_line_spans(b@, l, offset as int, file_id),
{
    if starts_with_dash(b, l) || starts_with_hash(b, l) || !has_colon_exec(b, l) {
        return None;
    }
    proof {
        lemma_find_byte_bounds(b@, l.start as int, l.end as int, 0x3a);
        lemma_find_byte_bounds(b@, l.ts as int, l.te as int, 0x3a);
    }
    let c = match find_byte_exec(b, l.start, l.end, 0x3a) {
        Some(c) => c,
        None => {
            return None;
        },
    };
    proof {
        crate::text::lemma_skip_ws_bounds(b@, l.start as int, l.end as int);
        assert(l.ts <= c) by {
            let q = find_byte(b@, l.ts as int, l.te as int, 0x3a)->0;
            assert(b@[q] == 0x3a);
            if c < l.ts {
                lemma_ws_before_ts(b@, l.start as int, l.end as int, c as int);
            }
        }
    }
    let ke = trim_end_at(b, l.ts, c);
    let key = SourceSpan::new(file_id, l.ts, ke);
    let vs = trim_start_at(b, c + 1, l.end);
    let value = if vs == l.end {
        None
    } else {
        Some(SourceSpan::new(file_id, vs, l.end))
    };
    let k = if key.start <= offset && offset < key.end {
        Some(key)
    } else {
        None
    };
    let v = match value {
        Some(x) => if x.start <= offset && offset < x.end {
            Some(x)
        } else {
            None
        },
        None => None,
    };
    Some((k, v, SourceSpan::new(file_id, l.start, l.end)))
}

/// Bytes before where `trim_start` stops are white space, so no `:`.
proof fn lemma_ws_before_ts(b: Seq<u8>, lo: int, hi: int, c: int)
    requires
        0 <= lo <= c < skip_ws(b, lo, hi),
        hi <= b.len(),
    ensures
        b[c] != 0x3a,
    decreases hi - lo,
{
    crate::text::lemma_skip_ws_bounds(b, lo, hi);
    let w = crate::text::ws_width(b, lo, hi);
    if lo < hi && w > 0 {
        if c >= lo + w {
            lemma_ws_before_ts(b, lo + w, hi, c);
        }
    }
}

} // verus!
