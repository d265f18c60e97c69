//! Reading the line before the cursor: where the cursor is, the word it ends, and which kind
//! of completion the line asks for.
use vstd::prelude::*;
use vstd::utf8::valid_utf8;

use crate::text::{
    find_byte, find_byte_exec, find_pat, find_pat_exec, rfind_byte, rfind_byte_exec, rfind_pat, rfind_pat_exec,
    skip_ws, skip_ws_back, trim_end_at, trim_start_at, ws_width, ws_width_at,
};

verus! {

/// The offset of a completion position: the line's start plus the column in bytes, cut at the
/// end of the line's text; the text's end for the line after the last; `None` past that.
pub open spec fn offset_from(b: Seq<u8>, s: int, k: int, line: int, col: int) -> Option<int>
    decreases b.len() - s,
{
    if s < 0 || s >= b.len() {
        if k == line {
            Some(b.len() as int)
        } else {
            None
        }
    } else {
        let e = match find_byte(b, s, b.len() as int, 0x0a) {
            Some(p) => p,
            None => b.len() as int,
        };
        if k == line {
            Some(s + (if col < e - s { col } else { e - s }))
        } else {
            offset_from(b, if s <= e < b.len() { e + 1 } else { b.len() as int }, k + 1, line, col)
        }
    }
}

pub open spec fn completion_offset(b: Seq<u8>, line: u32, col: u32) -> Option<int> {
    offset_from(b, 0, 0, line as int, col as int)
}

pub fn completion_offset_exec(b: &[u8], line: u32, col: u32) -> (r: Option<usize>)
    ensures
        match completion_offset(b@, line, col) {
            Some(o) => r == Some(o as usize) && 0 <= o <= b@.len(),
            None => r is None,
        },
{
    let mut s: usize = 0;
    let mut k: u32 = 0;
    let n = b.len();
    loop
        invariant
            s <= n == b@.len(),
            k <= line,
            offset_from(b@, s as int, k as int, line as int, col as int) == completion_offset(b@, line, col),
        decreases n - s,
    {
        if s >= n {
            if k == line {
                return Some(n);
            } else {
                return None;
            }
        }
        proof {
            crate::text::lemma_find_byte_bounds(b@, s as int, n as int, 0x0a);
        }
        let e = match find_byte_exec(b, s, n, 0x0a) {
            Some(p) => p,
            None => n,
        };
        if k == line {
            let c = col as usize;
            return Some(s + (if c < e - s { c } else { e - s }));
        }
        s = if e < n { e + 1 } else { n };
        k = k + 1;
    }
}

/// Where the line holding `off` starts.
pub open spec fn line_start(b: Seq<u8>, off: int) -> int {
    match rfind_byte(b, 0, off, 0x0a) {
        Some(p) => p + 1,
        None => 0,
    }
}

pub fn line_start_exec(b: &[u8], off: usize) -> (r: usize)
    requires
        off <= b@.len(),
    ensures
        r == line_start(b@, off as int),
        r <= off,
{
    proof {
        crate::text::lemma_rfind_byte_bounds(b@, 0, off as int, 0x0a);
    }
    match rfind_byte_exec(b, 0, off, 0x0a) {
        Some(p) => p + 1,
        None => 0,
    }
}

/// ASCII letters and digits, `_` and `-`.
pub open spec fn is_word_byte(c: u8) -> bool {
    (0x30 <= c <= 0x39) || (0x41 <= c <= 0x5a) || (0x61 <= c <= 0x7a) || c == 0x5f || c == 0x2d
}

/// Where the word that ends at `hi` starts.
pub open spec fn word_start(b: Seq<u8>, lo: int, hi: int) -> int
    decreases hi - lo,
{
    if hi <= lo {
        lo
    } else if is_word_byte(b[hi - 1]) {
        word_start(b, lo, hi - 1)
    } else {
        hi
    }
}

pub proof fn lemma_word_start(b: Seq<u8>, lo: int, hi: int)
    requires
        0 <= lo <= hi <= b.len(),
    ensures
        lo <= word_start(b, lo, hi) <= hi,
        forall|i: int| word_start(b, lo, hi) <= i < hi ==> is_word_byte(#[trigger] b[i]),
    decreases hi - lo,
{
    if hi > lo && is_word_byte(b[hi - 1]) {
        lemma_word_start(b, lo, hi - 1);
    }
}

pub fn word_start_exec(b: &[u8], lo: usize, hi: usize) -> (r: usize)
    requires
        lo <= hi <= b@.len(),
    ensures
        r == word_start(b@, lo as int, hi as int),
        lo <= r <= hi,
{
    proof {
        lemma_word_start(b@, lo as int, hi as int);
    }
    let mut j = hi;
    while j > lo && ((0x30 <= b[j - 1] && b[j - 1] <= 0x39) || (0x41 <= b[j - 1] && b[j - 1] <= 0x5a) || (0x61
        <= b[j - 1] && b[j - 1] <= 0x7a) || b[j - 1] == 0x5f || b[j - 1] == 0x2d)
        invariant
            lo <= j <= hi <= b@.len(),
            word_start(b@, lo as int, j as int) == word_start(b@, lo as int, hi as int),
        decreases j,
    {
        j = j - 1;
    }
    j
}

/// The first white-space character in `b[lo..hi]`.
pub open spec fn first_ws(b: Seq<u8>, lo: int, hi: int) -> Option<int>
    decreases hi - lo,
{
    if lo >= hi {
        None
    } else if ws_width(b, lo, hi) > 0 {
        Some(lo)
    } else {
        first_ws(b, lo + 1, hi)
    }
}

pub proof fn lemma_first_ws(b: Seq<u8>, lo: int, hi: int)
    requires
        0 <= lo <= hi <= b.len(),
    ensures
        first_ws(b, lo, hi) matches Some(i) ==> lo <= i < hi && ws_width(b, i, hi) > 0 && i + ws_width(b, i, hi)
            <= hi,
    decreases hi - lo,
{
    if lo < hi && ws_width(b, lo, hi) == 0 {
        lemma_first_ws(b, lo + 1, hi);
    }
}

pub fn first_ws_exec(b: &[u8], lo: usize, hi: usize) -> (r: Option<usize>)
    requires
        lo <= hi <= b@.len(),
    ensures
        match first_ws(b@, lo as int, hi as int) {
            Some(i) => r == Some(i as usize),
            None => r is None,
        },
{
    let mut i = lo;
    while i < hi
        invariant
            lo <= i <= hi <= b@.len(),
            first_ws(b@, i as int, hi as int) == first_ws(b@, lo as int, hi as int),
        decreases hi - i,
    {
        if ws_width_at(b, i, hi) > 0 {
            return Some(i);
        }
        i = i + 1;
    }
    None
}

/// The line asks for Lua names: an open `${`, the value of a `let` with its `=`, or a line
/// ending in `=`.
pub open spec fn lua_context(b: Seq<u8>, ls: int, ts: int, off: int) -> bool {
    ||| (match rfind_pat(b, ls, off, seq![0x24u8, 0x7b]) {
        Some(o) => find_byte(b, o + 2, off, 0x7d) is None,
        None => false,
    })
    ||| (off - ts >= 4 && b[ts] == 0x6c && b[ts + 1] == 0x65 && b[ts + 2] == 0x74 && b[ts + 3] == 0x20
        && find_byte(b, ts + 4, off, 0x3d) is Some)
    ||| (skip_ws_back(b, ls, off) > ls && b[skip_ws_back(b, ls, off) - 1] == 0x3d)
}

pub fn lua_context_exec(b: &[u8], ls: usize, ts: usize, off: usize) -> (r: bool)
    requires
        ls <= ts <= off <= b@.len(),
    ensures
        r == lua_context(b@, ls as int, ts as int, off as int),
{
    let open: [u8; 2] = [0x24, 0x7b];
    assert(open@ =~= seq![0x24u8, 0x7b]);
    proof {
        crate::text::lemma_rfind_pat_bounds(b@, ls as int, off as int, open@);
    }
    let a = match rfind_pat_exec(b, ls, off, &open) {
        Some(o) => find_byte_exec(b, o + 2, off, 0x7d).is_none(),
        None => false,
    };
    let c = off - ts >= 4 && b[ts] == 0x6c && b[ts + 1] == 0x65 && b[ts + 2] == 0x74 && b[ts + 3] == 0x20
        && find_byte_exec(b, ts + 4, off, 0x3d).is_some();
    let e = trim_end_at(b, ls, off);
    let d = e > ls && b[e - 1] == 0x3d;
    a || c || d
}

/// `v` with every leading copy of `p` removed (`str::trim_start_matches`).
pub open spec fn strip_repeat(v: Seq<u8>, p: Seq<u8>) -> Seq<u8>
    decreases v.len(),
{
    if p.len() > 0 && p.len() <= v.len() && v.subrange(0, p.len() as int) == p {
        strip_repeat(v.subrange(p.len() as int, v.len() as int), p)
    } else {
        v
    }
}

/// `v` starts with `p`.
pub open spec fn starts(v: Seq<u8>, p: Seq<u8>) -> bool {
    p.len() <= v.len() && v.subrange(0, p.len() as int) == p
}

/// What is left of valid UTF-8 after a valid prefix is valid too.
pub proof fn lemma_valid_suffix(x: Seq<u8>, y: Seq<u8>)
    requires
        valid_utf8(x + y),
        valid_utf8(x),
    ensures
        valid_utf8(y),
    decreases x.len(),
{
    if x.len() == 0 {
        assert(x + y =~= y);
    } else {
        let xy = x + y;
        assert(xy[0] == x[0]);
        assert(vstd::utf8::valid_first_scalar(x));
        let l = vstd::utf8::length_of_first_scalar(x);
        assert(vstd::utf8::length_of_first_scalar(xy) == l);
        assert(vstd::utf8::pop_first_scalar(xy) =~= vstd::utf8::pop_first_scalar(x) + y);
        lemma_valid_suffix(vstd::utf8::pop_first_scalar(x), y);
    }
}

pub fn starts_exec(v: &[u8], p: &[u8]) -> (r: bool)
    ensures
        r == starts(v@, p@),
{
    if p.len() > v.len() {
        return false;
    }
    let r = crate::text::piece_eq(v, 0, p.len(), p);
    r
}

/// The string `v` with every leading copy of `p` removed.
pub fn strip_repeat_exec(v: &str, p: &[u8]) -> (r: String)
    requires
        valid_utf8(p@),
    ensures
        crate::text::utf8(r@) == strip_repeat(crate::text::utf8(v@), p@),
{
    let b = v.as_bytes();
    proof {
        crate::text::lemma_str_valid(v@);
    }
    let n = b.len();
    let mut i: usize = 0;
    assert(b@.subrange(0, n as int) =~= b@);
    while p.len() > 0 && p.len() <= n - i && crate::text::piece_eq(b, i, i + p.len(), p)
        invariant
            i <= n == b@.len(),
            valid_utf8(p@),
            valid_utf8(b@.subrange(i as int, n as int)),
            strip_repeat(b@.subrange(i as int, n as int), p@) == strip_repeat(b@, p@),
        decreases n - i,
    {
        let ghost rest = b@.subrange(i as int, n as int);
        assert(rest.subrange(0, p@.len() as int) =~= b@.subrange(i as int, i + p@.len()));
        assert(rest.subrange(p@.len() as int, rest.len() as int) =~= b@.subrange(i + p@.len(), n as int));
        assert(rest =~= p@ + b@.subrange(i + p@.len(), n as int));
        proof {
            lemma_valid_suffix(p@, b@.subrange(i + p@.len(), n as int));
        }
        i = i + p.len();
    }
    let ghost rest = b@.subrange(i as int, n as int);
    proof {
        if p@.len() <= rest.len() {
            assert(rest.subrange(0, p@.len() as int) =~= b@.subrange(i as int, i + p@.len()));
        }
        assert(strip_repeat(rest, p@) == rest);
    }
    let mut out: Vec<u8> = Vec::new();
    crate::text::push_range(&mut out, b, i, n);
    assert(out@ =~= rest);
    crate::text::bytes_to_string(out)
}

} // verus!
