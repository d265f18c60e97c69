//! Ranges read off the lines: runs of comments, Lua fences and braces, sequences and
//! indented blocks.
use vstd::prelude::*;

use crate::folding::lines::{
    blank, dash_pat, doc_boundary, expects_block, expects_block_exec, fence_pat, has_close_brace,
    has_close_brace_exec, hash_pat, is_blank, is_doc_boundary, is_fence_close, is_text, lines_ok, opens_brace,
    opens_brace_exec, opens_fence, opens_fence_exec, starts, starts_with_dash, starts_with_hash, FLine,
};

verus! {

/// What a folding range folds: comments, or any other region.
#[derive(Debug, Clone, Copy, PartialEq, Eq, Structural)]
pub enum FoldingRangeKind {
    Comment,
    Region,
}

/// Lines `start_line..=end_line` fold together.
#[derive(Debug, Clone, Copy, PartialEq, Eq, Structural)]
pub struct FoldingRange {
    pub start_line: u32,
    pub end_line: u32,
    pub kind: FoldingRangeKind,
}

/// Lines `i..=j`, when `j` is after `i`.
pub open spec fn line_range(i: int, j: int, kind: FoldingRangeKind) -> Seq<FoldingRange> {
    if j > i {
        seq![FoldingRange { start_line: i as u32, end_line: j as u32, kind }]
    } else {
        seq![]
    }
}

pub fn push_line_range(out: &mut Vec<FoldingRange>, i: usize, j: usize, kind: FoldingRangeKind)
    requires
        i <= u32::MAX,
        j <= u32::MAX,
    ensures
        final(out)@ == old(out)@ + line_range(i as int, j as int, kind),
{
    if j > i {
        out.push(FoldingRange { start_line: i as u32, end_line: j as u32, kind });
    }
    proof {
        if j <= i {
            assert(final(out)@ =~= old(out)@ + line_range(i as int, j as int, kind));
        }
    }
}

// ---------------------------------------------------------------------------
// Comments
pub open spec fn is_comment(b: Seq<u8>, l: FLine) -> bool {
    starts(b, l, hash_pat())
}

/// The first line from `i` on that is no comment.
pub open spec fn comment_run_end(b: Seq<u8>, ls: Seq<FLine>, i: int) -> int
    decreases ls.len() - i,
{
    if i < 0 || i >= ls.len() || !is_comment(b, ls[i]) {
        i
    } else {
        comment_run_end(b, ls, i + 1)
    }
}

pub proof fn lemma_comment_run_end(b: Seq<u8>, ls: Seq<FLine>, i: int)
    requires
        0 <= i <= ls.len(),
    ensures
        i <= comment_run_end(b, ls, i) <= ls.len(),
    decreases ls.len() - i,
{
    if i < ls.len() && is_comment(b, ls[i]) {
        lemma_comment_run_end(b, ls, i + 1);
    }
}

/// One range per run of comment lines, from line `i` on.
pub open spec fn comment_ranges(b: Seq<u8>, ls: Seq<FLine>, i: int) -> Seq<FoldingRange>
    decreases ls.len() - i,
{
    if i < 0 || i >= ls.len() {
        seq![]
    } else if !is_comment(b, ls[i]) {
        comment_ranges(b, ls, i + 1)
    } else {
        proof {
            lemma_comment_run_end(b, ls, i + 1);
        }
        let e = comment_run_end(b, ls, i + 1);
        line_range(i, e - 1, FoldingRangeKind::Comment) + comment_ranges(b, ls, e)
    }
}

pub fn collect_comment_ranges(b: &[u8], ls: &Vec<FLine>, out: &mut Vec<FoldingRange>)
    requires
        lines_ok(b@, ls@),
        ls@.len() <= u32::MAX,
    ensures
        final(out)@ == old(out)@ + comment_ranges(b@, ls@, 0),
{
    let n = ls.len();
    let mut i: usize = 0;
    while i < n
        invariant
            i <= n,
            n == ls@.len(),
            n <= u32::MAX,
            lines_ok(b@, ls@),
            out@ + comment_ranges(b@, ls@, i as int) == old(out)@ + comment_ranges(b@, ls@, 0),
        decreases n - i,
    {
        assert(ls@[i as int].te <= b@.len());
        if !starts_with_hash(b, ls[i]) {
            i = i + 1;
        } else {
            let start = i;
            i = i + 1;
            while i < n && starts_with_hash(b, ls[i])
                invariant
                    start < i <= n,
                    n == ls@.len(),
                    lines_ok(b@, ls@),
                    comment_run_end(b@, ls@, i as int) == comment_run_end(b@, ls@, start + 1),
                decreases n - i,
            {
                assert(ls@[i as int].te <= b@.len());
                i = i + 1;
            }
            let ghost before = out@;
            push_line_range(out, start, i - 1, FoldingRangeKind::Comment);
            proof {
                assert(out@ + comment_ranges(b@, ls@, i as int) =~= before + comment_ranges(
                    b@,
                    ls@,
                    start as int,
                ));
            }
        }
    }
}

// ---------------------------------------------------------------------------
// Fences and braces
pub open spec fn first_fence_close(b: Seq<u8>, ls: Seq<FLine>, j: int) -> Option<int>
    decreases ls.len() - j,
{
    if j < 0 || j >= ls.len() {
        None
    } else if is_text(b, ls[j], fence_pat()) {
        Some(j)
    } else {
        first_fence_close(b, ls, j + 1)
    }
}

/// A line that opens a Lua fence folds to the next "```" line.
pub open spec fn fence_end(b: Seq<u8>, ls: Seq<FLine>, i: int) -> Option<int> {
    if opens_fence(b, ls[i]) {
        first_fence_close(b, ls, i + 1)
    } else {
        None
    }
}

pub open spec fn first_close_brace(b: Seq<u8>, ls: Seq<FLine>, j: int) -> Option<int>
    decreases ls.len() - j,
{
    if j < 0 || j >= ls.len() {
        None
    } else if has_close_brace(b, ls[j]) {
        Some(j)
    } else {
        first_close_brace(b, ls, j + 1)
    }
}

/// A line that opens `lua{` folds to the next line with a `}`.
pub open spec fn brace_end(b: Seq<u8>, ls: Seq<FLine>, i: int) -> Option<int> {
    if opens_brace(b, ls[i]) {
        first_close_brace(b, ls, i + 1)
    } else {
        None
    }
}

fn fence_end_exec(b: &[u8], ls: &Vec<FLine>, i: usize) -> (r: Option<usize>)
    requires
        lines_ok(b@, ls@),
        i < ls@.len(),
    ensures
        match fence_end(b@, ls@, i as int) {
            Some(j) => r == Some(j as usize) && i < j < ls@.len(),
            None => r is None,
        },
{
    if !opens_fence_exec(b, ls[i]) {
        return None;
    }
    let n = ls.len();
    let mut j = i + 1;
    while j < n
        invariant
            i < j <= n,
            n == ls@.len(),
            lines_ok(b@, ls@),
            first_fence_close(b@, ls@, j as int) == first_fence_close(b@, ls@, i + 1),
            fence_end(b@, ls@, i as int) == first_fence_close(b@, ls@, i + 1),
        decreases n - j,
    {
        assert(ls@[j as int].te <= b@.len());
        if is_fence_close(b, ls[j]) {
            return Some(j);
        }
        j = j + 1;
    }
    None
}

fn brace_end_exec(b: &[u8], ls: &Vec<FLine>, i: usize) -> (r: Option<usize>)
    requires
        lines_ok(b@, ls@),
        i < ls@.len(),
    ensures
        match brace_end(b@, ls@, i as int) {
            Some(j) => r == Some(j as usize) && i < j < ls@.len(),
            None => r is None,
        },
{
    if !opens_brace_exec(b, ls[i]) {
        return None;
    }
    let n = ls.len();
    let mut j = i + 1;
    while j < n
        invariant
            i < j <= n,
            n == ls@.len(),
            lines_ok(b@, ls@),
            first_close_brace(b@, ls@, j as int) == first_close_brace(b@, ls@, i + 1),
            brace_end(b@, ls@, i as int) == first_close_brace(b@, ls@, i + 1),
        decreases n - j,
    {
        assert(ls@[j as int].end <= b@.len());
        if has_close_brace_exec(b, ls[j]) {
            return Some(j);
        }
        j = j + 1;
    }
    None
}

// ---------------------------------------------------------------------------
// Sequences
/// Where a sequence at indent `base` ends, scanning from `idx` with `last` its last line
/// so far.
pub open spec fn seq_scan(b: Seq<u8>, ls: Seq<FLine>, base: int, idx: int, last: int) -> int
    decreases ls.len() - idx,
{
    if idx < 0 || idx >= ls.len() {
        last
    } else if blank(ls[idx]) {
        seq_scan(b, ls, base, idx + 1, idx)
    } else if doc_boundary(b, ls[idx]) || ls[idx].indent < base {
        last
    } else if ls[idx].indent == base && !starts(b, ls[idx], dash_pat()) {
        last
    } else {
        seq_scan(b, ls, base, idx + 1, idx)
    }
}

/// `last` moved back over blank lines, not before `start`.
pub open spec fn back_blank(ls: Seq<FLine>, start: int, last: int) -> int
    decreases last - start,
{
    if last > start && last < ls.len() && blank(ls[last]) {
        back_blank(ls, start, last - 1)
    } else {
        last
    }
}

pub open spec fn sequence_end(b: Seq<u8>, ls: Seq<FLine>, start: int) -> int {
    back_blank(ls, start, seq_scan(b, ls, ls[start].indent as int, start + 1, start))
}

/// A `-` line that no `-` line of the same indentation right before it continues, and
/// whose sequence reaches past it.
pub open spec fn sequence_start(b: Seq<u8>, ls: Seq<FLine>, i: int) -> bool {
    &&& starts(b, ls[i], dash_pat())
    &&& !(i > 0 && !blank(ls[i - 1]) && ls[i - 1].indent == ls[i].indent && starts(b, ls[i - 1], dash_pat()))
    &&& i + 1 < ls.len()
    &&& sequence_end(b, ls, i) > i
}

proof fn lemma_seq_scan(b: Seq<u8>, ls: Seq<FLine>, base: int, idx: int, last: int)
    requires
        0 <= last < idx <= ls.len(),
    ensures
        last <= seq_scan(b, ls, base, idx, last) < ls.len(),
    decreases ls.len() - idx,
{
    if idx < ls.len() {
        lemma_seq_scan(b, ls, base, idx + 1, idx);
    }
}

proof fn lemma_back_blank(ls: Seq<FLine>, start: int, last: int)
    requires
        0 <= start <= last < ls.len(),
    ensures
        start <= back_blank(ls, start, last) <= last,
    decreases last - start,
{
    if last > start && blank(ls[last]) {
        lemma_back_blank(ls, start, last - 1);
    }
}

fn back_blank_exec(ls: &Vec<FLine>, start: usize, last: usize) -> (r: usize)
    requires
        start <= last < ls@.len(),
    ensures
        r == back_blank(ls@, start as int, last as int),
        start <= r <= last,
{
    proof {
        lemma_back_blank(ls@, start as int, last as int);
    }
    let mut k = last;
    while k > start && is_blank(ls[k])
        invariant
            start <= k <= last < ls@.len(),
            back_blank(ls@, start as int, k as int) == back_blank(ls@, start as int, last as int),
        decreases k,
    {
        k = k - 1;
    }
    k
}

fn sequence_end_exec(b: &[u8], ls: &Vec<FLine>, start: usize) -> (r: usize)
    requires
        lines_ok(b@, ls@),
        start < ls@.len(),
    ensures
        r == sequence_end(b@, ls@, start as int),
        start <= r < ls@.len(),
{
    let base = ls[start].indent;
    let n = ls.len();
    let mut idx = start + 1;
    let mut last = start;
    proof {
        lemma_seq_scan(b@, ls@, base as int, idx as int, last as int);
    }
    while idx < n
        invariant
            start <= last < idx <= n,
            n == ls@.len(),
            lines_ok(b@, ls@),
            base == ls@[start as int].indent,
            seq_scan(b@, ls@, base as int, idx as int, last as int) == seq_scan(
                b@,
                ls@,
                base as int,
                start + 1,
                start as int,
            ),
        ensures
            start <= last < n,
            seq_scan(b@, ls@, base as int, start + 1, start as int) == last as int,
        decreases n - idx,
    {
        let l = ls[idx];
        assert(l.te <= b@.len());
        if is_blank(l) {
            last = idx;
            idx = idx + 1;
        } else if is_doc_boundary(b, l) || l.indent < base {
            break;
        } else if l.indent == base && !starts_with_dash(b, l) {
            break;
        } else {
            last = idx;
            idx = idx + 1;
        }
    }
    proof {
        lemma_seq_scan(b@, ls@, base as int, start + 1, start as int);
    }
    back_blank_exec(ls, start, last)
}

fn sequence_start_exec(b: &[u8], ls: &Vec<FLine>, i: usize) -> (r: bool)
    requires
        lines_ok(b@, ls@),
        i < ls@.len(),
    ensures
        r == sequence_start(b@, ls@, i as int),
{
    assert(ls@[i as int].te <= b@.len());
    if !starts_with_dash(b, ls[i]) {
        return false;
    }
    if i > 0 {
        let prev = ls[i - 1];
        assert(prev.te <= b@.len());
        if !is_blank(prev) && prev.indent == ls[i].indent && starts_with_dash(b, prev) {
            return false;
        }
    }
    let n = ls.len();
    i + 1 < n && sequence_end_exec(b, ls, i) > i
}

// ---------------------------------------------------------------------------
// Indented blocks
/// The indentation of the first non-blank line from `j` on, if it is deeper than line
/// `i`'s and no document boundary.
pub open spec fn child_indent_from(b: Seq<u8>, ls: Seq<FLine>, i: int, j: int) -> Option<int>
    decreases ls.len() - j,
{
    if j < 0 || j >= ls.len() {
        None
    } else if blank(ls[j]) {
        child_indent_from(b, ls, i, j + 1)
    } else if doc_boundary(b, ls[j]) {
        None
    } else if ls[j].indent > ls[i].indent {
        Some(ls[j].indent as int)
    } else {
        None
    }
}

/// The last line of a block indented at least `child`, scanning from `j`; blank lines
/// count only after a first line of the block.
pub open spec fn block_scan(b: Seq<u8>, ls: Seq<FLine>, child: int, j: int, last: Option<int>) -> Option<int>
    decreases ls.len() - j,
{
    if j < 0 || j >= ls.len() {
        last
    } else if doc_boundary(b, ls[j]) {
        last
    } else if blank(ls[j]) {
        block_scan(
            b,
            ls,
            child,
            j + 1,
            if last is Some {
                Some(j)
            } else {
                None
            },
        )
    } else if ls[j].indent < child {
        last
    } else {
        block_scan(b, ls, child, j + 1, Some(j))
    }
}

/// Where the block that line `i` opens ends, trailing blank lines left out.
pub open spec fn block_end(b: Seq<u8>, ls: Seq<FLine>, i: int) -> Option<int> {
    if !expects_block(b, ls[i]) {
        None
    } else {
        match child_indent_from(b, ls, i, i + 1) {
            None => None,
            Some(c) => match block_scan(b, ls, c, i + 1, None) {
                None => None,
                Some(last) => Some(back_blank(ls, i, last)),
            },
        }
    }
}

proof fn lemma_block_scan(b: Seq<u8>, ls: Seq<FLine>, child: int, j: int, last: Option<int>, i: int)
    requires
        0 <= i < j <= ls.len(),
        last matches Some(x) ==> i < x < j,
    ensures
        block_scan(b, ls, child, j, last) matches Some(x) ==> i < x < ls.len(),
    decreases ls.len() - j,
{
    if j < ls.len() {
        lemma_block_scan(b, ls, child, j + 1, if last is Some { Some(j) } else { None }, i);
        lemma_block_scan(b, ls, child, j + 1, Some(j), i);
    }
}

fn child_indent_exec(b: &[u8], ls: &Vec<FLine>, i: usize) -> (r: Option<usize>)
    requires
        lines_ok(b@, ls@),
        i < ls@.len(),
    ensures
        r matches Some(c) ==> child_indent_from(b@, ls@, i as int, i + 1) == Some(c as int),
        r is None ==> child_indent_from(b@, ls@, i as int, i + 1) is None,
{
    let n = ls.len();
    let mut j = i + 1;
    while j < n
        invariant
            i < j <= n,
            n == ls@.len(),
            lines_ok(b@, ls@),
            child_indent_from(b@, ls@, i as int, j as int) == child_indent_from(b@, ls@, i as int, i + 1),
        decreases n - j,
    {
        let x = ls[j];
        assert(x.te <= b@.len());
        if !is_blank(x) {
            if is_doc_boundary(b, x) {
                return None;
            }
            if x.indent > ls[i].indent {
                return Some(x.indent);
            }
            return None;
        }
        j = j + 1;
    }
    None
}

fn block_end_exec(b: &[u8], ls: &Vec<FLine>, i: usize) -> (r: Option<usize>)
    requires
        lines_ok(b@, ls@),
        i < ls@.len(),
    ensures
        match block_end(b@, ls@, i as int) {
            Some(j) => r == Some(j as usize) && i <= j < ls@.len(),
            None => r is None,
        },
{
    let l = ls[i];
    if !expects_block_exec(b, l) {
        return None;
    }
    let n = ls.len();
    let c = match child_indent_exec(b, ls, i) {
        Some(c) => c,
        None => {
            return None;
        },
    };
    let mut k = i + 1;
    let mut last: Option<usize> = None;
    proof {
        lemma_block_scan(b@, ls@, c as int, k as int, None, i as int);
    }
    while k < n
        invariant
            i < k <= n,
            n == ls@.len(),
            lines_ok(b@, ls@),
            last matches Some(x) ==> i < x < k,
            block_scan(b@, ls@, c as int, k as int, match last { Some(x) => Some(x as int), None => None })
                == block_scan(b@, ls@, c as int, i + 1, None),
        ensures
            last matches Some(x) ==> i < x < n,
            block_scan(b@, ls@, c as int, i + 1, None) == match last {
                Some(x) => Some(x as int),
                None => None,
            },
        decreases n - k,
    {
        let x = ls[k];
        assert(x.te <= b@.len());
        if is_doc_boundary(b, x) {
            break;
        }
        if is_blank(x) {
            if last.is_some() {
                last = Some(k);
            }
            k = k + 1;
            continue;
        }
        if x.indent < c {
            break;
        }
        last = Some(k);
        k = k + 1;
    }
    match last {
        None => None,
        Some(x) => Some(back_blank_exec(ls, i, x)),
    }
}

// ---------------------------------------------------------------------------
// All structural ranges
/// The range that line `i` opens: a Lua fence, a Lua brace, a sequence or an indented block.
pub open spec fn structural_at(b: Seq<u8>, ls: Seq<FLine>, i: int) -> Seq<FoldingRange> {
    if blank(ls[i]) || doc_boundary(b, ls[i]) {
        seq![]
    } else {
        match fence_end(b, ls, i) {
            Some(j) => line_range(i, j, FoldingRangeKind::Region),
            None => match brace_end(b, ls, i) {
                Some(j) => line_range(i, j, FoldingRangeKind::Region),
                None => if sequence_start(b, ls, i) {
                    line_range(i, sequence_end(b, ls, i), FoldingRangeKind::Region)
                } else {
                    match block_end(b, ls, i) {
                        Some(j) => line_range(i, j, FoldingRangeKind::Region),
                        None => seq![],
                    }
                },
            },
        }
    }
}

pub open spec fn structural_ranges(b: Seq<u8>, ls: Seq<FLine>, k: int) -> Seq<FoldingRange>
    decreases k,
{
    if k <= 0 {
        seq![]
    } else {
        structural_ranges(b, ls, k - 1) + structural_at(b, ls, k - 1)
    }
}

pub fn collect_structural_ranges(b: &[u8], ls: &Vec<FLine>, out: &mut Vec<FoldingRange>)
    requires
        lines_ok(b@, ls@),
        ls@.len() <= u32::MAX,
    ensures
        final(out)@ == old(out)@ + structural_ranges(b@, ls@, ls@.len() as int),
{
    let n = ls.len();
    let mut i: usize = 0;
    while i < n
        invariant
            i <= n,
            n == ls@.len(),
            n <= u32::MAX,
            lines_ok(b@, ls@),
            out@ == old(out)@ + structural_ranges(b@, ls@, i as int),
        decreases n - i,
    {
        let l = ls[i];
        assert(l.te <= b@.len());
        let ghost before = out@;
        if is_blank(l) || is_doc_boundary(b, l) {
        } else {
            match fence_end_exec(b, ls, i) {
                Some(j) => push_line_range(out, i, j, FoldingRangeKind::Region),
                None => match brace_end_exec(b, ls, i) {
                    Some(j) => push_line_range(out, i, j, FoldingRangeKind::Region),
                    None => if sequence_start_exec(b, ls, i) {
                        let e = sequence_end_exec(b, ls, i);
                        push_line_range(out, i, e, FoldingRangeKind::Region);
                    } else {
                        match block_end_exec(b, ls, i) {
                            Some(j) => push_line_range(out, i, j, FoldingRangeKind::Region),
                            None => {},
                        }
                    },
                },
            }
        }
        proof {
            assert(out@ =~= before + structural_at(b@, ls@, i as int));
            assert(structural_ranges(b@, ls@, i + 1) == structural_ranges(b@, ls@, i as int) + structural_at(
                b@,
                ls@,
                i as int,
            ));
        }
        i = i + 1;
    }
}

} // verus!
