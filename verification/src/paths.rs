//! File-system paths as text: lexical normalisation and the root-containment test.
//!
//! A path is read the Unix way: `/` separates components, a leading `/` makes it absolute,
//! empty components and `.` are dropped and `..` drops the component before it.
use vstd::prelude::*;
use vstd::utf8::valid_utf8;

use crate::text::{bytes_to_string, lemma_boundary_after_ascii, lemma_str_valid, push_ascii, push_piece, utf8};

verus! {

pub open spec fn is_absolute(b: Seq<u8>) -> bool {
    b.len() > 0 && b[0] == 0x2f
}

/// The component `b[s..e]` is `.` (or empty).
pub open spec fn is_skipped(b: Seq<u8>, s: int, e: int) -> bool {
    e == s || (e - s == 1 && b[s] == 0x2e)
}

/// The component `b[s..e]` is `..`.
pub open spec fn is_parent(b: Seq<u8>, s: int, e: int) -> bool {
    e - s == 2 && b[s] == 0x2e && b[s + 1] == 0x2e
}

/// The kept components after one more component `b[s..e]`.
pub open spec fn step(b: Seq<u8>, acc: Seq<(int, int)>, s: int, e: int) -> Seq<(int, int)> {
    if is_skipped(b, s, e) {
        acc
    } else if is_parent(b, s, e) {
        if acc.len() > 0 {
            acc.drop_last()
        } else {
            acc
        }
    } else {
        acc.push((s, e))
    }
}

/// The kept components, scanning from `i` with the current component starting at `start`.
pub open spec fn norm_from(b: Seq<u8>, i: int, start: int, acc: Seq<(int, int)>) -> Seq<(int, int)>
    decreases b.len() - i,
{
    if i >= b.len() {
        step(b, acc, start, b.len() as int)
    } else if b[i] == 0x2f {
        norm_from(b, i + 1, i + 1, step(b, acc, start, i))
    } else {
        norm_from(b, i + 1, start, acc)
    }
}

/// The components that survive normalisation, as byte ranges of `b`.
pub open spec fn normal_components(b: Seq<u8>) -> Seq<(int, int)> {
    norm_from(b, 0, 0, Seq::empty())
}

/// The components joined with `/`.
pub open spec fn join(b: Seq<u8>, segs: Seq<(int, int)>) -> Seq<u8>
    decreases segs.len(),
{
    if segs.len() == 0 {
        Seq::empty()
    } else if segs.len() == 1 {
        b.subrange(segs[0].0, segs[0].1)
    } else {
        join(b, segs.drop_last()) + seq![0x2fu8] + b.subrange(segs.last().0, segs.last().1)
    }
}

/// The normalised text of a path.
pub open spec fn normalized(b: Seq<u8>) -> Seq<u8> {
    (if is_absolute(b) { seq![0x2fu8] } else { Seq::<u8>::empty() }) + join(b, normal_components(b))
}

/// `Path::starts_with` on two paths: the root's components, the root directory among them,
/// are a prefix of the path's.
pub open spec fn starts_with_path(p: Seq<u8>, r: Seq<u8>) -> bool {
    let ps = normal_components(p);
    let rs = normal_components(r);
    ||| !is_absolute(r) && rs.len() == 0
    ||| is_absolute(p) == is_absolute(r) && rs.len() <= ps.len() && forall|k: int|
        0 <= k < rs.len() ==> #[trigger] r.subrange(rs[k].0, rs[k].1) == p.subrange(ps[k].0, ps[k].1)
}

/// A component range that lies between separators.
pub open spec fn seg_ok(b: Seq<u8>, s: int, e: int) -> bool {
    &&& 0 <= s <= e <= b.len()
    &&& s == 0 || b[s - 1] == 0x2f
    &&& e == b.len() || b[e] == 0x2f
}

pub open spec fn all_ok(b: Seq<u8>, segs: Seq<(int, int)>) -> bool {
    forall|k: int| 0 <= k < segs.len() ==> seg_ok(b, #[trigger] segs[k].0, segs[k].1)
}

pub open spec fn view_pairs(v: Seq<(usize, usize)>) -> Seq<(int, int)> {
    v.map_values(|p: (usize, usize)| (p.0 as int, p.1 as int))
}

pub proof fn lemma_norm_ok(b: Seq<u8>, i: int, start: int, acc: Seq<(int, int)>)
    requires
        0 <= start <= i <= b.len(),
        start == 0 || b[start - 1] == 0x2f,
        all_ok(b, acc),
    ensures
        all_ok(b, norm_from(b, i, start, acc)),
    decreases b.len() - i,
{
    if i >= b.len() {
        assert(all_ok(b, step(b, acc, start, b.len() as int)));
    } else if b[i] == 0x2f {
        let next = step(b, acc, start, i);
        assert(all_ok(b, next));
        lemma_norm_ok(b, i + 1, i + 1, next);
    } else {
        lemma_norm_ok(b, i + 1, start, acc);
    }
}

fn step_exec(acc: &mut Vec<(usize, usize)>, b: &[u8], s: usize, e: usize)
    requires
        s <= e <= b@.len(),
    ensures
        view_pairs(final(acc)@) == step(b@, view_pairs(old(acc)@), s as int, e as int),
{
    let ghost before = view_pairs(acc@);
    if e == s || (e - s == 1 && b[s] == 0x2e) {
    } else if e - s == 2 && b[s] == 0x2e && b[s + 1] == 0x2e {
        if acc.len() > 0 {
            acc.pop();
            assert(view_pairs(acc@) =~= before.drop_last());
        }
    } else {
        acc.push((s, e));
        assert(view_pairs(acc@) =~= before.push((s as int, e as int)));
    }
}

pub(crate) fn components_exec(b: &[u8]) -> (r: Vec<(usize, usize)>)
    ensures
        view_pairs(r@) == normal_components(b@),
        all_ok(b@, normal_components(b@)),
{
    let mut acc: Vec<(usize, usize)> = Vec::new();
    let mut start: usize = 0;
    let mut i: usize = 0;
    proof {
        assert(view_pairs(acc@) =~= Seq::<(int, int)>::empty());
        lemma_norm_ok(b@, 0, 0, Seq::empty());
    }
    while i < b.len()
        invariant
            0 <= start <= i <= b@.len(),
            start == 0 || b@[start - 1] == 0x2f,
            norm_from(b@, i as int, start as int, view_pairs(acc@)) == normal_components(b@),
            all_ok(b@, normal_components(b@)),
        decreases b@.len() - i,
    {
        if b[i] == 0x2f {
            step_exec(&mut acc, b, start, i);
            start = i + 1;
        }
        i = i + 1;
    }
    step_exec(&mut acc, b, start, b.len());
    acc
}

pub(crate) fn render(b: &[u8], absolute: bool, segs: &Vec<(usize, usize)>) -> (r: Vec<u8>)
    requires
        valid_utf8(b@),
        all_ok(b@, view_pairs(segs@)),
    ensures
        r@ == (if absolute { seq![0x2fu8] } else { Seq::<u8>::empty() }) + join(b@, view_pairs(segs@)),
        valid_utf8(r@),
{
    let ghost v = view_pairs(segs@);
    let ghost prefix: Seq<u8> = if absolute { seq![0x2fu8] } else { Seq::<u8>::empty() };
    let mut out: Vec<u8> = Vec::new();
    proof {
        crate::text::lemma_ascii_valid(out@);
    }
    if absolute {
        push_ascii(&mut out, 0x2f);
    }
    assert(out@ =~= prefix + join(b@, v.take(0)));
    let mut k: usize = 0;
    while k < segs.len()
        invariant
            k <= segs@.len(),
            v == view_pairs(segs@),
            v.len() == segs@.len(),
            all_ok(b@, v),
            valid_utf8(b@),
            valid_utf8(out@),
            out@ == prefix + join(b@, v.take(k as int)),
        decreases segs@.len() - k,
    {
        let (s, e) = segs[k];
        assert(v[k as int] == (s as int, e as int));
        assert(seg_ok(b@, v[k as int].0, v[k as int].1));
        proof {
            if s > 0 {
                lemma_boundary_after_ascii(b@, s - 1);
            }
        }
        if k > 0 {
            push_ascii(&mut out, 0x2f);
        }
        push_piece(&mut out, b, s, e);
        proof {
            let t = v.take(k + 1);
            assert(t.drop_last() =~= v.take(k as int));
            assert(t.last() == (s as int, e as int));
            if k == 0 {
                assert(t.len() == 1);
            }
        }
        k = k + 1;
    }
    assert(v.take(segs@.len() as int) =~= v);
    out
}

/// The path with `.` and empty components dropped and each `..` removing the component
/// before it (at the root or at the start of a relative path, `..` is dropped).
pub fn normalize_path(path: &str) -> (r: String)
    ensures
        utf8(r@) == normalized(utf8(path@)),
{
    let b = path.as_bytes();
    proof {
        lemma_str_valid(path@);
    }
    let segs = components_exec(b);
    let absolute = b.len() > 0 && b[0] == 0x2f;
    let out = render(b, absolute, &segs);
    bytes_to_string(out)
}

fn pieces_equal(a: &[u8], s: usize, e: usize, b: &[u8], t: usize, u: usize) -> (r: bool)
    requires
        s <= e <= a@.len(),
        t <= u <= b@.len(),
    ensures
        r == (a@.subrange(s as int, e as int) == b@.subrange(t as int, u as int)),
{
    if e - s != u - t {
        assert(a@.subrange(s as int, e as int).len() != b@.subrange(t as int, u as int).len());
        return false;
    }
    let mut k: usize = 0;
    while k < e - s
        invariant
            s <= e <= a@.len(),
            t <= u <= b@.len(),
            e - s == u - t,
            k <= e - s,
            forall|j: int| 0 <= j < k ==> #[trigger] a@[s + j] == b@[t + j],
        decreases e - s - k,
    {
        if a[s + k] != b[t + k] {
            assert(a@.subrange(s as int, e as int)[k as int] != b@.subrange(t as int, u as int)[k as int]);
            return false;
        }
        k = k + 1;
    }
    assert forall|j: int| 0 <= j < e - s implies a@.subrange(s as int, e as int)[j] == b@.subrange(
        t as int,
        u as int,
    )[j] by {
        assert(a@[s + j] == b@[t + j]);
    }
    assert(a@.subrange(s as int, e as int) =~= b@.subrange(t as int, u as int));
    true
}

/// Whether `path` lies under `root`, component by component, as `Path::starts_with` says.
pub fn path_starts_with(path: &str, root: &str) -> (r: bool)
    ensures
        r == starts_with_path(utf8(path@), utf8(root@)),
{
    let p = path.as_bytes();
    let q = root.as_bytes();
    let ps = components_exec(p);
    let rs = components_exec(q);
    let pa = p.len() > 0 && p[0] == 0x2f;
    let ra = q.len() > 0 && q[0] == 0x2f;
    let ghost pv = view_pairs(ps@);
    let ghost rv = view_pairs(rs@);
    if !ra && rs.len() == 0 {
        return true;
    }
    if pa != ra || rs.len() > ps.len() {
        return false;
    }
    let mut k: usize = 0;
    while k < rs.len()
        invariant
            k <= rs@.len() <= ps@.len(),
            pv == view_pairs(ps@),
            rv == view_pairs(rs@),
            pv == normal_components(p@),
            rv == normal_components(q@),
            p@ == utf8(path@),
            q@ == utf8(root@),
            !(!is_absolute(q@) && rv.len() == 0),
            pv.len() == ps@.len(),
            rv.len() == rs@.len(),
            all_ok(p@, pv),
            all_ok(q@, rv),
            forall|j: int| 0 <= j < k ==> #[trigger] q@.subrange(rv[j].0, rv[j].1) == p@.subrange(pv[j].0, pv[j].1),
        decreases rs@.len() - k,
    {
        let (s, e) = rs[k];
        let (t, u) = ps[k];
        assert(rv[k as int] == (s as int, e as int));
        assert(pv[k as int] == (t as int, u as int));
        assert(seg_ok(q@, rv[k as int].0, rv[k as int].1));
        assert(seg_ok(p@, pv[k as int].0, pv[k as int].1));
        if !pieces_equal(q, s, e, p, t, u) {
            assert(q@.subrange(rv[k as int].0, rv[k as int].1) != p@.subrange(pv[k as int].0, pv[k as int].1));
            return false;
        }
        k = k + 1;
    }
    true
}


/// The text of each component range.
pub open spec fn contents(b: Seq<u8>, segs: Seq<(int, int)>) -> Seq<Seq<u8>> {
    segs.map_values(|p: (int, int)| b.subrange(p.0, p.1))
}

/// A component that normalisation keeps: not empty, not `.` or `..`, without a separator.
pub open spec fn kept_piece(p: Seq<u8>) -> bool {
    &&& p.len() > 0
    &&& !(p.len() == 1 && p[0] == 0x2e)
    &&& !(p.len() == 2 && p[0] == 0x2e && p[1] == 0x2e)
    &&& forall|j: int| 0 <= j < p.len() ==> p[j] != 0x2f
}

/// Pieces joined with `/`.
pub open spec fn join_pieces(ps: Seq<Seq<u8>>) -> Seq<u8>
    decreases ps.len(),
{
    if ps.len() == 0 {
        Seq::empty()
    } else if ps.len() == 1 {
        ps[0]
    } else {
        join_pieces(ps.drop_last()) + seq![0x2fu8] + ps.last()
    }
}

proof fn lemma_join_contents(b: Seq<u8>, segs: Seq<(int, int)>)
    ensures
        join(b, segs) == join_pieces(contents(b, segs)),
    decreases segs.len(),
{
    if segs.len() > 1 {
        assert(contents(b, segs.drop_last()) =~= contents(b, segs).drop_last());
        lemma_join_contents(b, segs.drop_last());
    }
}

proof fn lemma_join_first(ps: Seq<Seq<u8>>)
    requires
        ps.len() > 0,
        ps[0].len() > 0,
    ensures
        join_pieces(ps).len() > 0,
        join_pieces(ps)[0] == ps[0][0],
    decreases ps.len(),
{
    if ps.len() > 1 {
        assert(ps.drop_last()[0] == ps[0]);
        lemma_join_first(ps.drop_last());
    }
}

proof fn lemma_norm_kept(b: Seq<u8>, i: int, start: int, acc: Seq<(int, int)>)
    requires
        0 <= start <= i <= b.len(),
        forall|j: int| start <= j < i ==> b[j] != 0x2f,
        forall|k: int| 0 <= k < acc.len() ==> kept_piece(#[trigger] contents(b, acc)[k]),
    ensures
        forall|k: int| 0 <= k < norm_from(b, i, start, acc).len() ==> kept_piece(
            #[trigger] contents(b, norm_from(b, i, start, acc))[k],
        ),
    decreases b.len() - i,
{
    if i >= b.len() {
        assert(norm_from(b, i, start, acc) == step(b, acc, start, b.len() as int));
        lemma_step_kept(b, acc, start, b.len() as int);
    } else if b[i] == 0x2f {
        assert(norm_from(b, i, start, acc) == norm_from(b, i + 1, i + 1, step(b, acc, start, i)));
        lemma_step_kept(b, acc, start, i);
        lemma_norm_kept(b, i + 1, i + 1, step(b, acc, start, i));
    } else {
        assert(norm_from(b, i, start, acc) == norm_from(b, i + 1, start, acc));
        lemma_norm_kept(b, i + 1, start, acc);
    }
}

proof fn lemma_step_kept(b: Seq<u8>, acc: Seq<(int, int)>, s: int, e: int)
    requires
        0 <= s <= e <= b.len(),
        forall|j: int| s <= j < e ==> b[j] != 0x2f,
        forall|k: int| 0 <= k < acc.len() ==> kept_piece(#[trigger] contents(b, acc)[k]),
    ensures
        forall|k: int| 0 <= k < step(b, acc, s, e).len() ==> kept_piece(#[trigger] contents(b, step(b, acc, s, e))[k]),
{
    let r = step(b, acc, s, e);
    if is_skipped(b, s, e) {
    } else if is_parent(b, s, e) {
        if acc.len() > 0 {
            assert forall|k: int| 0 <= k < r.len() implies kept_piece(#[trigger] contents(b, r)[k]) by {
                assert(contents(b, r)[k] == contents(b, acc)[k]);
            }
        }
    } else {
        assert forall|k: int| 0 <= k < r.len() implies kept_piece(#[trigger] contents(b, r)[k]) by {
            if k < acc.len() {
                assert(contents(b, r)[k] == contents(b, acc)[k]);
            } else {
                let p = b.subrange(s, e);
                assert(contents(b, r)[k] == p);
                assert forall|j: int| 0 <= j < p.len() implies p[j] != 0x2f by {
                    assert(p[j] == b[s + j]);
                }
            }
        }
    }
}

proof fn lemma_step_prefix(x: Seq<u8>, w: Seq<u8>, acc: Seq<(int, int)>, s: int, e: int)
    requires
        0 <= s <= e <= w.len() <= x.len(),
        forall|j: int| 0 <= j < w.len() ==> x[j] == w[j],
    ensures
        step(x, acc, s, e) == step(w, acc, s, e),
{
    if e - s >= 1 {
        assert(x[s] == w[s]);
    }
    if e - s >= 2 {
        assert(x[s + 1] == w[s + 1]);
    }
}

proof fn lemma_norm_prefix(x: Seq<u8>, w: Seq<u8>, i: int, start: int, acc: Seq<(int, int)>)
    requires
        w.len() < x.len(),
        x[w.len() as int] == 0x2f,
        forall|j: int| 0 <= j < w.len() ==> x[j] == w[j],
        0 <= start <= i <= w.len(),
    ensures
        norm_from(x, i, start, acc) == norm_from(
            x,
            w.len() + 1 as int,
            w.len() + 1 as int,
            norm_from(w, i, start, acc),
        ),
    decreases w.len() - i,
{
    if i == w.len() {
        lemma_step_prefix(x, w, acc, start, i);
    } else {
        assert(x[i] == w[i]);
        if w[i] == 0x2f {
            lemma_step_prefix(x, w, acc, start, i);
            lemma_norm_prefix(x, w, i + 1, i + 1, step(w, acc, start, i));
        } else {
            lemma_norm_prefix(x, w, i + 1, start, acc);
        }
    }
}

proof fn lemma_norm_tail(x: Seq<u8>, i: int, start: int, acc: Seq<(int, int)>)
    requires
        0 <= start <= i <= x.len(),
        forall|j: int| i <= j < x.len() ==> x[j] != 0x2f,
    ensures
        norm_from(x, i, start, acc) == step(x, acc, start, x.len() as int),
    decreases x.len() - i,
{
    if i < x.len() {
        lemma_norm_tail(x, i + 1, start, acc);
    }
}

/// A kept piece at the end of `x` is pushed as it is.
proof fn lemma_step_push(x: Seq<u8>, acc: Seq<(int, int)>, s: int, q: Seq<u8>)
    requires
        0 <= s <= x.len(),
        x.subrange(s, x.len() as int) == q,
        kept_piece(q),
    ensures
        step(x, acc, s, x.len() as int) == acc.push((s, x.len() as int)),
{
    assert(x[s] == q[0]);
    if q.len() >= 2 {
        assert(x[s + 1] == q[1]);
    }
}

proof fn lemma_components_of_join(pre: Seq<u8>, ps: Seq<Seq<u8>>)
    requires
        pre == seq![0x2fu8] || pre.len() == 0,
        forall|k: int| 0 <= k < ps.len() ==> kept_piece(#[trigger] ps[k]),
    ensures
        contents(pre + join_pieces(ps), normal_components(pre + join_pieces(ps))) == ps,
    decreases ps.len(),
{
    let x = pre + join_pieces(ps);
    if ps.len() == 0 {
        assert(x =~= pre);
        if pre.len() == 0 {
            assert(normal_components(x) == step(x, Seq::<(int, int)>::empty(), 0, 0));
        } else {
            assert(normal_components(x) == norm_from(x, 1, 1, step(x, Seq::<(int, int)>::empty(), 0, 0)));
            assert(norm_from(x, 1, 1, Seq::<(int, int)>::empty()) == step(x, Seq::<(int, int)>::empty(), 1, 1));
        }
        assert(contents(x, normal_components(x)) =~= ps);
    } else if ps.len() == 1 {
        let q = ps[0];
        assert(x =~= pre + q);
        let s = pre.len() as int;
        assert forall|j: int| s <= j < x.len() implies x[j] != 0x2f by {
            assert(x[j] == q[j - s]);
        }
        assert(x.subrange(s, x.len() as int) =~= q);
        if pre.len() == 0 {
            lemma_norm_tail(x, 0, 0, Seq::empty());
        } else {
            assert(normal_components(x) == norm_from(x, 1, 1, step(x, Seq::<(int, int)>::empty(), 0, 0)));
            lemma_norm_tail(x, 1, 1, Seq::empty());
        }
        lemma_step_push(x, Seq::empty(), s, q);
        assert(contents(x, normal_components(x)) =~= ps);
    } else {
        let front = ps.drop_last();
        let q = ps.last();
        assert forall|k: int| 0 <= k < front.len() implies kept_piece(#[trigger] front[k]) by {
            assert(front[k] == ps[k]);
        }
        lemma_components_of_join(pre, front);
        let w = pre + join_pieces(front);
        assert(x =~= w + seq![0x2fu8] + q);
        let s: int = w.len() as int + 1;
        assert forall|j: int| 0 <= j < w.len() implies x[j] == w[j] by {}
        assert(x[w.len() as int] == 0x2f);
        lemma_norm_prefix(x, w, 0, 0, Seq::empty());
        assert forall|j: int| s <= j < x.len() implies x[j] != 0x2f by {
            assert(x[j] == q[j - s]);
        }
        assert(x.subrange(s, x.len() as int) =~= q);
        lemma_norm_tail(x, s, s, normal_components(w));
        lemma_step_push(x, normal_components(w), s, q);
        lemma_norm_ok(w, 0, 0, Seq::empty());
        let nw = normal_components(w);
        assert forall|k: int| 0 <= k < nw.len() implies #[trigger] contents(x, nw)[k] == contents(w, nw)[k] by {
            assert(seg_ok(w, nw[k].0, nw[k].1));
            assert(x.subrange(nw[k].0, nw[k].1) =~= w.subrange(nw[k].0, nw[k].1));
        }
        assert(contents(x, nw) =~= contents(w, nw));
        let nx = nw.push((s, x.len() as int));
        assert(normal_components(x) == nx);
        assert(contents(x, nx) =~= contents(x, nw).push(q));
        assert(front.push(q) =~= ps);
    }
}

/// Normalising a normalised path gives it back, and a normalised path holds no empty, `.` or
/// `..` component (each kept component is also free of separators).
pub proof fn lemma_normalize_idempotent(b: Seq<u8>)
    ensures
        normalized(normalized(b)) == normalized(b),
        forall|k: int| 0 <= k < normal_components(normalized(b)).len() ==> kept_piece(
            #[trigger] contents(normalized(b), normal_components(normalized(b)))[k],
        ),
{
    let ps = contents(b, normal_components(b));
    lemma_norm_kept(b, 0, 0, Seq::empty());
    lemma_join_contents(b, normal_components(b));
    let pre: Seq<u8> = if is_absolute(b) { seq![0x2fu8] } else { Seq::<u8>::empty() };
    let n = normalized(b);
    assert(n == pre + join_pieces(ps));
    assert forall|k: int| 0 <= k < ps.len() implies kept_piece(#[trigger] ps[k]) by {}
    lemma_components_of_join(pre, ps);
    lemma_join_contents(n, normal_components(n));
    if is_absolute(b) {
        assert(n[0] == 0x2f);
    } else if ps.len() > 0 {
        lemma_join_first(ps);
        assert(n =~= join_pieces(ps));
        assert(ps[0][0] != 0x2f);
    } else {
        assert(n.len() == 0);
    }
    assert(normalized(n) =~= n);
}

} // verus!
