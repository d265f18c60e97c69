//! The candidate ranges ordered, then kept when they nest with every range kept before.
use vstd::prelude::*;

use crate::folding::structure::{FoldingRange, FoldingRangeKind};

verus! {

/// `x` sorts before `y`: earlier start, then longer, then comments first.
pub open spec fn before(x: FoldingRange, y: FoldingRange) -> bool {
    ||| x.start_line < y.start_line
    ||| (x.start_line == y.start_line && x.end_line > y.end_line)
    ||| (x.start_line == y.start_line && x.end_line == y.end_line && x.kind == FoldingRangeKind::Comment
        && y.kind == FoldingRangeKind::Region)
}

/// Where a stable sort puts `x` among the sorted `s`: before the first range it sorts before.
pub open spec fn insert_pos(s: Seq<FoldingRange>, x: FoldingRange, p: int) -> int
    decreases s.len() - p,
{
    if p < 0 || p >= s.len() {
        s.len() as int
    } else if before(x, s[p]) {
        p
    } else {
        insert_pos(s, x, p + 1)
    }
}

/// The ranges sorted by `before`, ties kept in order.
pub open spec fn sorted_ranges(s: Seq<FoldingRange>) -> Seq<FoldingRange>
    decreases s.len(),
{
    if s.len() == 0 {
        seq![]
    } else {
        let r = sorted_ranges(s.drop_last());
        r.insert(insert_pos(r, s.last(), 0), s.last())
    }
}

pub open spec fn encloses(outer: FoldingRange, inner: FoldingRange) -> bool {
    outer.start_line <= inner.start_line && outer.end_line >= inner.end_line
}

/// Two ranges overlap without one holding the other.
pub open spec fn overlaps_invalidly(left: FoldingRange, right: FoldingRange) -> bool {
    left.start_line <= right.end_line && right.start_line <= left.end_line && !encloses(left, right) && !encloses(
        right,
        left,
    )
}

/// One of the first `j` kept ranges is `c` or overlaps it invalidly.
pub open spec fn rejected_by(acc: Seq<FoldingRange>, c: FoldingRange, j: int) -> bool
    decreases j,
{
    if j <= 0 {
        false
    } else {
        rejected_by(acc, c, j - 1) || acc[j - 1] == c || overlaps_invalidly(acc[j - 1], c)
    }
}

/// The first `k` ranges, each kept unless empty, a repetition or an invalid overlap with
/// one kept before it.
pub open spec fn accepted(s: Seq<FoldingRange>, k: int) -> Seq<FoldingRange>
    decreases k,
{
    if k <= 0 {
        seq![]
    } else {
        let acc = accepted(s, k - 1);
        let c = s[k - 1];
        if c.end_line <= c.start_line || rejected_by(acc, c, acc.len() as int) {
            acc
        } else {
            acc.push(c)
        }
    }
}

fn before_exec(x: FoldingRange, y: FoldingRange) -> (r: bool)
    ensures
        r == before(x, y),
{
    x.start_line < y.start_line || (x.start_line == y.start_line && x.end_line > y.end_line) || (x.start_line
        == y.start_line && x.end_line == y.end_line && x.kind == FoldingRangeKind::Comment && y.kind
        == FoldingRangeKind::Region)
}

pub fn sort_ranges(input: &Vec<FoldingRange>) -> (sorted: Vec<FoldingRange>)
    ensures
        sorted@ == sorted_ranges(input@),
{
    let mut sorted: Vec<FoldingRange> = Vec::new();
    let total = input.len();
    let mut done: usize = 0;
    while done < total
        invariant
            done <= total,
            total == input@.len(),
            sorted@ == sorted_ranges(input@.subrange(0, done as int)),
        decreases total - done,
    {
        let x = input[done];
        let ghost prev = sorted@;
        let mut p: usize = 0;
        while p < sorted.len() && !before_exec(x, sorted[p])
            invariant
                p <= sorted@.len(),
                prev == sorted@,
                insert_pos(prev, x, p as int) == insert_pos(prev, x, 0),
            decreases sorted@.len() - p,
        {
            p = p + 1;
        }
        sorted.insert(p, x);
        proof {
            assert(input@.subrange(0, done + 1).drop_last() =~= input@.subrange(0, done as int));
            assert(input@.subrange(0, done + 1).last() == x);
        }
        done = done + 1;
    }
    proof {
        assert(input@.subrange(0, total as int) =~= input@);
    }
    sorted
}

fn encloses_exec(outer: FoldingRange, inner: FoldingRange) -> (r: bool)
    ensures
        r == encloses(outer, inner),
{
    outer.start_line <= inner.start_line && outer.end_line >= inner.end_line
}

fn rejected_exec(acc: &Vec<FoldingRange>, c: FoldingRange) -> (r: bool)
    ensures
        r == rejected_by(acc@, c, acc@.len() as int),
{
    let n = acc.len();
    let mut j: usize = 0;
    while j < n
        invariant
            j <= n,
            n == acc@.len(),
            !rejected_by(acc@, c, j as int),
        decreases n - j,
    {
        let e = acc[j];
        let overlaps = e.start_line <= c.end_line && c.start_line <= e.end_line && !encloses_exec(e, c)
            && !encloses_exec(c, e);
        if e == c || overlaps {
            proof {
                lemma_rejected_from(acc@, c, j as int + 1, n as int);
            }
            return true;
        }
        proof {
            assert(rejected_by(acc@, c, j + 1) == rejected_by(acc@, c, j as int));
        }
        j = j + 1;
    }
    false
}

/// A range that rejects `c` among the first `j` still does among more.
proof fn lemma_rejected_from(acc: Seq<FoldingRange>, c: FoldingRange, j: int, k: int)
    requires
        0 < j <= k <= acc.len(),
        rejected_by(acc, c, j),
    ensures
        rejected_by(acc, c, k),
    decreases k - j,
{
    if j < k {
        lemma_rejected_from(acc, c, j, k - 1);
    }
}

pub fn accept_ranges(sorted: &Vec<FoldingRange>) -> (out: Vec<FoldingRange>)
    ensures
        out@ == accepted(sorted@, sorted@.len() as int),
{
    let mut out: Vec<FoldingRange> = Vec::new();
    let n = sorted.len();
    let mut k: usize = 0;
    while k < n
        invariant
            k <= n,
            n == sorted@.len(),
            out@ == accepted(sorted@, k as int),
        decreases n - k,
    {
        let c = sorted[k];
        if c.end_line <= c.start_line || rejected_exec(&out, c) {
        } else {
            out.push(c);
        }
        k = k + 1;
    }
    out
}

/// A range that none of the first `j` kept ranges rejects differs from each of them and
/// nests with or stays apart from each.
proof fn lemma_not_rejected(acc: Seq<FoldingRange>, c: FoldingRange, j: int)
    requires
        0 <= j <= acc.len(),
        !rejected_by(acc, c, j),
    ensures
        forall|i: int| 0 <= i < j ==> acc[i] != c && !overlaps_invalidly(acc[i], c),
    decreases j,
{
    if j > 0 {
        lemma_not_rejected(acc, c, j - 1);
    }
}

/// Folding ranges that are kept span more than one line, are all different, and any two
/// of them either nest or do not overlap.
pub proof fn lemma_accepted_ranges_nest(s: Seq<FoldingRange>, k: int)
    requires
        0 <= k <= s.len(),
    ensures
        forall|i: int|
            0 <= i < accepted(s, k).len() ==> #[trigger] accepted(s, k)[i].end_line > accepted(s, k)[i].start_line,
        forall|i: int, j: int|
            0 <= i < j < accepted(s, k).len() ==> #[trigger] accepted(s, k)[i] != #[trigger] accepted(s, k)[j]
                && !overlaps_invalidly(accepted(s, k)[i], accepted(s, k)[j]) && !overlaps_invalidly(
                accepted(s, k)[j],
                accepted(s, k)[i],
            ),
    decreases k,
{
    if k > 0 {
        lemma_accepted_ranges_nest(s, k - 1);
        let acc = accepted(s, k - 1);
        let c = s[k - 1];
        if !(c.end_line <= c.start_line || rejected_by(acc, c, acc.len() as int)) {
            lemma_not_rejected(acc, c, acc.len() as int);
            let now = accepted(s, k);
            assert(now == acc.push(c));
            assert forall|i: int, j: int| 0 <= i < j < now.len() implies #[trigger] now[i] != #[trigger] now[j]
                && !overlaps_invalidly(now[i], now[j]) && !overlaps_invalidly(now[j], now[i]) by {
                if j == acc.len() {
                    assert(now[j] == c);
                    assert(now[i] == acc[i]);
                } else {
                    assert(now[i] == acc[i]);
                    assert(now[j] == acc[j]);
                }
            }
        }
    }
}


/// No range of the sequence sorts before one that comes earlier.
pub open spec fn in_order(s: Seq<FoldingRange>) -> bool {
    forall|i: int, j: int| 0 <= i < j < s.len() ==> !before(#[trigger] s[j], #[trigger] s[i])
}

proof fn lemma_insert_pos(s: Seq<FoldingRange>, x: FoldingRange, p: int)
    requires
        0 <= p <= s.len(),
    ensures
        p <= insert_pos(s, x, p) <= s.len(),
        forall|q: int| p <= q < insert_pos(s, x, p) ==> !before(x, #[trigger] s[q]),
        insert_pos(s, x, p) < s.len() ==> before(x, s[insert_pos(s, x, p)]),
    decreases s.len() - p,
{
    if p < s.len() && !before(x, s[p]) {
        lemma_insert_pos(s, x, p + 1);
    }
}

pub proof fn lemma_sorted_ranges_in_order(s: Seq<FoldingRange>)
    ensures
        in_order(sorted_ranges(s)),
    decreases s.len(),
{
    if s.len() > 0 {
        let r = sorted_ranges(s.drop_last());
        lemma_sorted_ranges_in_order(s.drop_last());
        let x = s.last();
        lemma_insert_pos(r, x, 0);
        let p = insert_pos(r, x, 0);
        let t = r.insert(p, x);
        assert forall|i: int, j: int| 0 <= i < j < t.len() implies !before(#[trigger] t[j], #[trigger] t[i]) by {
            if j < p {
                assert(t[i] == r[i] && t[j] == r[j]);
            } else if j == p {
                assert(t[i] == r[i]);
            } else if i == p {
                assert(t[j] == r[j - 1]);
                if j - 1 > p {
                    assert(!before(r[j - 1], r[p]));
                }
            } else if i < p {
                assert(t[i] == r[i] && t[j] == r[j - 1]);
            } else {
                assert(t[i] == r[i - 1] && t[j] == r[j - 1]);
            }
        }
    }
}

/// The kept ranges come from the input, in its order.
pub proof fn lemma_accepted_in_order(s: Seq<FoldingRange>, k: int)
    requires
        0 <= k <= s.len(),
        in_order(s),
    ensures
        in_order(accepted(s, k)),
        forall|i: int| 0 <= i < accepted(s, k).len() ==> exists|m: int| 0 <= m < k && #[trigger] accepted(s, k)[i] == s[m],
    decreases k,
{
    if k > 0 {
        lemma_accepted_in_order(s, k - 1);
        let acc = accepted(s, k - 1);
        let c = s[k - 1];
        if !(c.end_line <= c.start_line || rejected_by(acc, c, acc.len() as int)) {
            let t = acc.push(c);
            assert forall|i: int, j: int| 0 <= i < j < t.len() implies !before(#[trigger] t[j], #[trigger] t[i]) by {
                if j == acc.len() {
                    let m = choose|m: int| 0 <= m < k - 1 && #[trigger] acc[i] == s[m];
                    assert(t[i] == s[m]);
                } else {
                    assert(t[i] == acc[i] && t[j] == acc[j]);
                }
            }
            assert forall|i: int| 0 <= i < t.len() implies exists|m: int| 0 <= m < k && #[trigger] t[i] == s[m] by {
                if i == acc.len() {
                    assert(t[i] == s[k - 1]);
                } else {
                    let m = choose|m: int| 0 <= m < k - 1 && #[trigger] acc[i] == s[m];
                    assert(t[i] == s[m]);
                }
            }
        }
    }
}

} // verus!
