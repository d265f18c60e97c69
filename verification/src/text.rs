//! Byte-level text primitives over UTF-8 encoded source text.
//!
//! Offsets throughout the library are byte offsets into UTF-8 text, as in
//! LSP's `utf-8` position encoding. The functions here scan byte slices and
//! are specified over `Seq<u8>`; the lemmas relate cut points to UTF-8
//! character boundaries so that the pieces cut out of a `&str` are valid
//! strings again.
use vstd::prelude::*;
use vstd::utf8::*;

verus! {

broadcast use vstd::utf8::valid_utf8_concat;

/// The UTF-8 bytes of a `&str` or `String` view.
pub open spec fn utf8(s: Seq<char>) -> Seq<u8> {
    encode_utf8(s)
}

/// A cut point of a byte sequence that never splits a UTF-8 encoded character.
pub open spec fn char_boundary(b: Seq<u8>, i: int) -> bool {
    i == 0 || i == b.len() || (0 < i < b.len() && !is_continuation_byte(b[i]))
}

pub open spec fn is_ascii_byte(c: u8) -> bool {
    c < 0x80
}

pub open spec fn all_ascii(s: Seq<u8>) -> bool {
    forall|i: int| 0 <= i < s.len() ==> #[trigger] is_ascii_byte(s[i])
}

/// ASCII white space as `char::is_whitespace` sees it: tab, line feed, vertical tab,
/// form feed, carriage return and space.
pub open spec fn is_ascii_ws(c: u8) -> bool {
    c == 0x20 || (0x09 <= c && c <= 0x0d)
}

/// Byte width of a white-space character (Unicode `White_Space`) whose encoding starts
/// at `i` and ends at or before `hi`; 0 when there is none.
pub open spec fn ws_width(b: Seq<u8>, i: int, hi: int) -> int {
    if i < 0 || i >= hi || hi > b.len() {
        0
    } else if is_ascii_ws(b[i]) {
        1
    } else if i + 2 <= hi && b[i] == 0xc2 && (b[i + 1] == 0x85 || b[i + 1] == 0xa0) {
        2
    } else if i + 3 <= hi && ((b[i] == 0xe1 && b[i + 1] == 0x9a && b[i + 2] == 0x80) || (b[i]
        == 0xe2 && b[i + 1] == 0x80 && ((0x80 <= b[i + 2] && b[i + 2] <= 0x8a) || b[i + 2] == 0xa8
        || b[i + 2] == 0xa9 || b[i + 2] == 0xaf)) || (b[i] == 0xe2 && b[i + 1] == 0x81 && b[i + 2]
        == 0x9f) || (b[i] == 0xe3 && b[i + 1] == 0x80 && b[i + 2] == 0x80)) {
        3
    } else {
        0
    }
}

/// Byte width of a white-space character whose encoding ends at `j` and starts at or after
/// `lo`; 0 when there is none.
pub open spec fn ws_width_back(b: Seq<u8>, lo: int, j: int) -> int {
    if j <= lo || lo < 0 || j > b.len() {
        0
    } else if is_ascii_ws(b[j - 1]) {
        1
    } else if j - 2 >= lo && ws_width(b, j - 2, j) == 2 {
        2
    } else if j - 3 >= lo && ws_width(b, j - 3, j) == 3 {
        3
    } else {
        0
    }
}

/// Where `str::trim_start` stops inside `b[lo..hi]`.
pub open spec fn skip_ws(b: Seq<u8>, lo: int, hi: int) -> int
    decreases hi - lo,
{
    if lo < hi && ws_width(b, lo, hi) > 0 {
        skip_ws(b, lo + ws_width(b, lo, hi), hi)
    } else {
        lo
    }
}

/// Where `str::trim_end` stops inside `b[lo..hi]`.
pub open spec fn skip_ws_back(b: Seq<u8>, lo: int, hi: int) -> int
    decreases hi - lo,
{
    if lo < hi && ws_width_back(b, lo, hi) > 0 {
        skip_ws_back(b, lo, hi - ws_width_back(b, lo, hi))
    } else {
        hi
    }
}

/// Count of leading bytes of `b[lo..hi]` equal to `c`.
pub open spec fn run_of(b: Seq<u8>, lo: int, hi: int, c: u8) -> int
    decreases hi - lo,
{
    if lo < hi && b[lo] == c {
        1 + run_of(b, lo + 1, hi, c)
    } else {
        0
    }
}

/// Count of leading spaces and tabs of `b[lo..hi]`.
pub open spec fn run_of_blank(b: Seq<u8>, lo: int, hi: int) -> int
    decreases hi - lo,
{
    if lo < hi && (b[lo] == 0x20 || b[lo] == 0x09) {
        1 + run_of_blank(b, lo + 1, hi)
    } else {
        0
    }
}

/// `b[i..i + pat.len()] == pat`, inside `b[..hi]`.
pub open spec fn matches_at(b: Seq<u8>, i: int, hi: int, pat: Seq<u8>) -> bool {
    0 <= i && i + pat.len() <= hi && hi <= b.len() && b.subrange(i, i + pat.len()) == pat
}

/// First position in `[lo, hi)` holding the byte `c`.
pub open spec fn find_byte(b: Seq<u8>, lo: int, hi: int, c: u8) -> Option<int>
    decreases hi - lo,
{
    if lo >= hi {
        None
    } else if b[lo] == c {
        Some(lo)
    } else {
        find_byte(b, lo + 1, hi, c)
    }
}

/// Last position in `[lo, hi)` holding the byte `c`.
pub open spec fn rfind_byte(b: Seq<u8>, lo: int, hi: int, c: u8) -> Option<int>
    decreases hi - lo,
{
    if lo >= hi {
        None
    } else if b[hi - 1] == c {
        Some(hi - 1)
    } else {
        rfind_byte(b, lo, hi - 1, c)
    }
}

/// First position `p` in `[lo, hi]` where `pat` occurs inside `b[lo..hi]`.
pub open spec fn find_pat(b: Seq<u8>, lo: int, hi: int, pat: Seq<u8>) -> Option<int>
    decreases hi - lo + 1,
{
    if lo > hi || lo + pat.len() > hi {
        None
    } else if matches_at(b, lo, hi, pat) {
        Some(lo)
    } else {
        find_pat(b, lo + 1, hi, pat)
    }
}

/// Last position `p` in `[lo, hi]` where `pat` occurs inside `b[lo..hi]`.
pub open spec fn rfind_pat(b: Seq<u8>, lo: int, hi: int, pat: Seq<u8>) -> Option<int>
    decreases hi - lo + 1,
{
    if lo > hi || lo + pat.len() > hi {
        None
    } else if matches_at(b, hi - pat.len(), hi, pat) {
        Some(hi - pat.len())
    } else {
        rfind_pat(b, lo, hi - 1, pat)
    }
}

// ---------------------------------------------------------------------------
// UTF-8 facts
pub proof fn lemma_ascii_valid(s: Seq<u8>)
    requires
        all_ascii(s),
    ensures
        valid_utf8(s),
    decreases s.len(),
{
    if s.len() > 0 {
        assert(is_ascii_byte(s[0]));
        let rest = pop_first_scalar(s);
        assert(rest =~= s.subrange(1, s.len() as int));
        assert forall|i: int| 0 <= i < rest.len() implies #[trigger] is_ascii_byte(rest[i]) by {
            assert(is_ascii_byte(s[i + 1]));
        }
        lemma_ascii_valid(rest);
    }
}

pub proof fn lemma_char_boundary(b: Seq<u8>, i: int)
    requires
        valid_utf8(b),
        char_boundary(b, i),
    ensures
        is_char_boundary(b, i),
{
    if i == 0 || i == b.len() {
        is_char_boundary_start_end_of_seq(b);
    } else {
        is_char_boundary_iff_not_is_continuation_byte(b, i);
    }
}

/// A piece cut out of valid UTF-8 at two character boundaries is valid UTF-8.
pub proof fn lemma_valid_subrange(b: Seq<u8>, i: int, j: int)
    requires
        valid_utf8(b),
        0 <= i <= j <= b.len(),
        char_boundary(b, i),
        char_boundary(b, j),
    ensures
        valid_utf8(b.subrange(i, j)),
{
    lemma_char_boundary(b, j);
    valid_utf8_split(b, j);
    let p = b.subrange(0, j);
    assert(char_boundary(p, i));
    lemma_char_boundary(p, i);
    valid_utf8_split(p, i);
    assert(p.subrange(i, p.len() as int) =~= b.subrange(i, j));
}

/// The byte after a complete character that starts at a boundary is again a boundary.
pub proof fn lemma_boundary_after_char(b: Seq<u8>, i: int, w: int)
    requires
        valid_utf8(b),
        0 <= i < b.len(),
        char_boundary(b, i),
        i + w <= b.len(),
        (w == 1 && is_leading_byte_width_1(b[i])) || (w == 2 && is_leading_byte_width_2(b[i])) || (
        w == 3 && is_leading_byte_width_3(b[i])),
    ensures
        char_boundary(b, i + w),
{
    lemma_char_boundary(b, i);
    valid_utf8_split(b, i);
    let s = b.subrange(i, b.len() as int);
    assert(s[0] == b[i]);
    assert(valid_utf8(s));
    assert(valid_first_scalar(s));
    assert(length_of_first_scalar(s) == w);
    let rest = pop_first_scalar(s);
    assert(valid_utf8(rest));
    assert(rest =~= b.subrange(i + w, b.len() as int));
    if i + w < b.len() {
        assert(rest.len() > 0);
        assert(valid_first_scalar(rest));
        assert(rest[0] == b[i + w]);
        assert(!is_continuation_byte(rest[0]));
    }
}

/// The byte right after an ASCII byte is a boundary.
pub proof fn lemma_boundary_after_ascii(b: Seq<u8>, i: int)
    requires
        valid_utf8(b),
        0 <= i < b.len(),
        is_ascii_byte(b[i]),
    ensures
        char_boundary(b, i + 1),
{
    lemma_boundary_after_char(b, i, 1);
}

/// A white-space character that starts at a boundary ends at a boundary.
pub proof fn lemma_boundary_after_ws(b: Seq<u8>, i: int, hi: int)
    requires
        valid_utf8(b),
        char_boundary(b, i),
        ws_width(b, i, hi) > 0,
    ensures
        char_boundary(b, i + ws_width(b, i, hi)),
{
    lemma_boundary_after_char(b, i, ws_width(b, i, hi));
}

/// The start of a white-space character found by scanning backwards is a boundary.
pub proof fn lemma_boundary_before_ws(b: Seq<u8>, lo: int, j: int)
    requires
        ws_width_back(b, lo, j) > 0,
    ensures
        char_boundary(b, j - ws_width_back(b, lo, j)),
{
}

pub proof fn lemma_skip_ws_bounds(b: Seq<u8>, lo: int, hi: int)
    requires
        0 <= lo <= hi <= b.len(),
    ensures
        lo <= skip_ws(b, lo, hi) <= hi,
        skip_ws(b, lo, hi) < hi ==> ws_width(b, skip_ws(b, lo, hi), hi) == 0,
    decreases hi - lo,
{
    if lo < hi && ws_width(b, lo, hi) > 0 {
        lemma_skip_ws_bounds(b, lo + ws_width(b, lo, hi), hi);
    }
}

pub proof fn lemma_skip_ws_boundary(b: Seq<u8>, lo: int, hi: int)
    requires
        valid_utf8(b),
        0 <= lo <= hi <= b.len(),
        char_boundary(b, lo),
    ensures
        char_boundary(b, skip_ws(b, lo, hi)),
    decreases hi - lo,
{
    if lo < hi && ws_width(b, lo, hi) > 0 {
        lemma_boundary_after_ws(b, lo, hi);
        lemma_skip_ws_boundary(b, lo + ws_width(b, lo, hi), hi);
    }
}

pub proof fn lemma_skip_ws_back_bounds(b: Seq<u8>, lo: int, hi: int)
    requires
        0 <= lo <= hi <= b.len(),
    ensures
        lo <= skip_ws_back(b, lo, hi) <= hi,
        lo < skip_ws_back(b, lo, hi) ==> ws_width_back(b, lo, skip_ws_back(b, lo, hi)) == 0,
    decreases hi - lo,
{
    if lo < hi && ws_width_back(b, lo, hi) > 0 {
        lemma_skip_ws_back_bounds(b, lo, hi - ws_width_back(b, lo, hi));
    }
}

pub proof fn lemma_skip_ws_back_boundary(b: Seq<u8>, lo: int, hi: int)
    requires
        0 <= lo <= hi <= b.len(),
        char_boundary(b, hi),
    ensures
        char_boundary(b, skip_ws_back(b, lo, hi)),
    decreases hi - lo,
{
    if lo < hi && ws_width_back(b, lo, hi) > 0 {
        lemma_boundary_before_ws(b, lo, hi);
        lemma_skip_ws_back_boundary(b, lo, hi - ws_width_back(b, lo, hi));
    }
}

pub proof fn lemma_run_of_bounds(b: Seq<u8>, lo: int, hi: int, c: u8)
    requires
        0 <= lo <= hi <= b.len(),
    ensures
        0 <= run_of(b, lo, hi, c) <= hi - lo,
        forall|k: int| lo <= k < lo + run_of(b, lo, hi, c) ==> b[k] == c,
        lo + run_of(b, lo, hi, c) < hi ==> b[lo + run_of(b, lo, hi, c)] != c,
    decreases hi - lo,
{
    if lo < hi && b[lo] == c {
        lemma_run_of_bounds(b, lo + 1, hi, c);
    }
}

pub proof fn lemma_find_byte_bounds(b: Seq<u8>, lo: int, hi: int, c: u8)
    requires
        0 <= lo <= hi <= b.len(),
    ensures
        find_byte(b, lo, hi, c) matches Some(p) ==> lo <= p < hi && b[p] == c && forall|k: int|
            lo <= k < p ==> b[k] != c,
        find_byte(b, lo, hi, c) is None ==> forall|k: int| lo <= k < hi ==> b[k] != c,
    decreases hi - lo,
{
    if lo < hi && b[lo] != c {
        lemma_find_byte_bounds(b, lo + 1, hi, c);
    }
}

pub proof fn lemma_rfind_byte_bounds(b: Seq<u8>, lo: int, hi: int, c: u8)
    requires
        0 <= lo <= hi <= b.len(),
    ensures
        rfind_byte(b, lo, hi, c) matches Some(p) ==> lo <= p < hi && b[p] == c && forall|k: int|
            p < k < hi ==> b[k] != c,
        rfind_byte(b, lo, hi, c) is None ==> forall|k: int| lo <= k < hi ==> b[k] != c,
    decreases hi - lo,
{
    if lo < hi && b[hi - 1] != c {
        lemma_rfind_byte_bounds(b, lo, hi - 1, c);
    }
}

pub proof fn lemma_find_pat_bounds(b: Seq<u8>, lo: int, hi: int, pat: Seq<u8>)
    requires
        0 <= lo, 0 <= hi <= b.len(),
    ensures
        find_pat(b, lo, hi, pat) matches Some(p) ==> lo <= p && p + pat.len() <= hi && matches_at(
            b,
            p,
            hi,
            pat,
        ),
    decreases hi - lo + 1,
{
    if lo + pat.len() <= hi && !matches_at(b, lo, hi, pat) {
        lemma_find_pat_bounds(b, lo + 1, hi, pat);
    }
}

pub proof fn lemma_rfind_pat_bounds(b: Seq<u8>, lo: int, hi: int, pat: Seq<u8>)
    requires
        0 <= lo, 0 <= hi <= b.len(),
    ensures
        rfind_pat(b, lo, hi, pat) matches Some(p) ==> lo <= p && p + pat.len() <= hi
            && matches_at(b, p, hi, pat),
    decreases hi - lo + 1,
{
    if hi > 0 && lo + pat.len() <= hi && !matches_at(b, hi - pat.len(), hi, pat) {
        lemma_rfind_pat_bounds(b, lo, hi - 1, pat);
        assert(rfind_pat(b, lo, hi, pat) == rfind_pat(b, lo, hi - 1, pat));
        if let Some(p) = rfind_pat(b, lo, hi - 1, pat) {
            assert(matches_at(b, p, hi - 1, pat));
            assert(matches_at(b, p, hi, pat));
        }
    }
}

/// A match of a pattern whose first byte is ASCII starts at a boundary.
pub proof fn lemma_match_boundary(b: Seq<u8>, p: int, hi: int, pat: Seq<u8>)
    requires
        matches_at(b, p, hi, pat),
        pat.len() > 0,
        is_ascii_byte(pat[0]),
    ensures
        char_boundary(b, p),
{
    assert(b.subrange(p, p + pat.len())[0] == b[p]);
}

// ---------------------------------------------------------------------------
// Scanning
pub fn ws_width_at(b: &[u8], i: usize, hi: usize) -> (w: usize)
    requires
        hi <= b@.len(),
    ensures
        w == ws_width(b@, i as int, hi as int),
        w <= 3,
{
    if i >= hi {
        return 0;
    }
    let c = b[i];
    if c == 0x20 || (0x09 <= c && c <= 0x0d) {
        1
    } else if hi - i >= 2 && c == 0xc2 && (b[i + 1] == 0x85 || b[i + 1] == 0xa0) {
        2
    } else if hi - i >= 3 {
        let c1 = b[i + 1];
        let c2 = b[i + 2];
        if (c == 0xe1 && c1 == 0x9a && c2 == 0x80) || (c == 0xe2 && c1 == 0x80 && ((0x80 <= c2
            && c2 <= 0x8a) || c2 == 0xa8 || c2 == 0xa9 || c2 == 0xaf)) || (c == 0xe2 && c1 == 0x81
            && c2 == 0x9f) || (c == 0xe3 && c1 == 0x80 && c2 == 0x80) {
            3
        } else {
            0
        }
    } else {
        0
    }
}

pub fn ws_width_before(b: &[u8], lo: usize, j: usize) -> (w: usize)
    requires
        lo <= j <= b@.len(),
    ensures
        w == ws_width_back(b@, lo as int, j as int),
        w <= j - lo,
{
    if j <= lo {
        return 0;
    }
    let c = b[j - 1];
    if c == 0x20 || (0x09 <= c && c <= 0x0d) {
        1
    } else if j - lo >= 2 && ws_width_at(b, j - 2, j) == 2 {
        2
    } else if j - lo >= 3 && ws_width_at(b, j - 3, j) == 3 {
        3
    } else {
        0
    }
}

/// Start of `b[lo..hi]` with leading white space removed (`str::trim_start`).
pub fn trim_start_at(b: &[u8], lo: usize, hi: usize) -> (p: usize)
    requires
        lo <= hi <= b@.len(),
    ensures
        p == skip_ws(b@, lo as int, hi as int),
        lo <= p <= hi,
{
    proof {
        lemma_skip_ws_bounds(b@, lo as int, hi as int);
    }
    let mut i = lo;
    loop
        invariant
            lo <= i <= hi <= b@.len(),
            skip_ws(b@, i as int, hi as int) == skip_ws(b@, lo as int, hi as int),
        decreases hi - i,
    {
        let w = ws_width_at(b, i, hi);
        if i < hi && w > 0 {
            i = i + w;
        } else {
            return i;
        }
    }
}

/// End of `b[lo..hi]` with trailing white space removed (`str::trim_end`).
pub fn trim_end_at(b: &[u8], lo: usize, hi: usize) -> (p: usize)
    requires
        lo <= hi <= b@.len(),
    ensures
        p == skip_ws_back(b@, lo as int, hi as int),
        lo <= p <= hi,
{
    proof {
        lemma_skip_ws_back_bounds(b@, lo as int, hi as int);
    }
    let mut j = hi;
    loop
        invariant
            lo <= j <= hi <= b@.len(),
            skip_ws_back(b@, lo as int, j as int) == skip_ws_back(b@, lo as int, hi as int),
        decreases j - lo,
    {
        let w = ws_width_before(b, lo, j);
        if lo < j && w > 0 {
            j = j - w;
        } else {
            return j;
        }
    }
}

/// Number of leading copies of `c` in `b[lo..hi]`.
pub fn count_run(b: &[u8], lo: usize, hi: usize, c: u8) -> (n: usize)
    requires
        lo <= hi <= b@.len(),
    ensures
        n == run_of(b@, lo as int, hi as int, c),
        n <= hi - lo,
{
    proof {
        lemma_run_of_bounds(b@, lo as int, hi as int, c);
    }
    let mut i = lo;
    while i < hi && b[i] == c
        invariant
            lo <= i <= hi <= b@.len(),
            run_of(b@, lo as int, hi as int, c) == (i - lo) + run_of(b@, i as int, hi as int, c),
        decreases hi - i,
    {
        i = i + 1;
    }
    i - lo
}

/// Number of leading spaces and tabs in `b[lo..hi]`.
pub fn count_blank_run(b: &[u8], lo: usize, hi: usize) -> (n: usize)
    requires
        lo <= hi <= b@.len(),
    ensures
        n == run_of_blank(b@, lo as int, hi as int),
        n <= hi - lo,
{
    let mut i = lo;
    while i < hi && (b[i] == 0x20 || b[i] == 0x09)
        invariant
            lo <= i <= hi <= b@.len(),
            run_of_blank(b@, lo as int, hi as int) == (i - lo) + run_of_blank(
                b@,
                i as int,
                hi as int,
            ),
        decreases hi - i,
    {
        i = i + 1;
    }
    proof {
        assert(run_of_blank(b@, i as int, hi as int) == 0);
    }
    i - lo
}

/// Whether `pat` occurs at `i` inside `b[..hi]`.
pub fn matches_at_exec(b: &[u8], i: usize, hi: usize, pat: &[u8]) -> (r: bool)
    requires
        hi <= b@.len(),
    ensures
        r == matches_at(b@, i as int, hi as int, pat@),
{
    if i > hi || pat.len() > hi - i {
        return false;
    }
    let mut k: usize = 0;
    while k < pat.len()
        invariant
            k <= pat@.len(),
            i + pat@.len() <= hi <= b@.len(),
            forall|j: int| 0 <= j < k ==> b@[i + j] == pat@[j],
        decreases pat@.len() - k,
    {
        if b[i + k] != pat[k] {
            assert(b@.subrange(i as int, i + pat@.len())[k as int] != pat@[k as int]);
            return false;
        }
        k = k + 1;
    }
    assert(b@.subrange(i as int, i + pat@.len()) =~= pat@);
    true
}

/// Whether `b[lo..hi]` is exactly `pat`.
pub fn piece_eq(b: &[u8], lo: usize, hi: usize, pat: &[u8]) -> (r: bool)
    requires
        lo <= hi <= b@.len(),
    ensures
        r == (b@.subrange(lo as int, hi as int) == pat@),
{
    let r = hi - lo == pat.len() && matches_at_exec(b, lo, hi, pat);
    proof {
        if b@.subrange(lo as int, hi as int) == pat@ {
            assert(b@.subrange(lo as int, hi as int).len() == hi - lo);
        }
    }
    r
}

/// First occurrence of the byte `c` in `b[lo..hi]`.
pub fn find_byte_exec(b: &[u8], lo: usize, hi: usize, c: u8) -> (r: Option<usize>)
    requires
        lo <= hi <= b@.len(),
    ensures
        r matches Some(p) ==> find_byte(b@, lo as int, hi as int, c) == Some(p as int),
        r is None ==> find_byte(b@, lo as int, hi as int, c) is None,
{
    let mut i = lo;
    while i < hi
        invariant
            lo <= i <= hi <= b@.len(),
            find_byte(b@, i as int, hi as int, c) == find_byte(b@, lo as int, hi as int, c),
        decreases hi - i,
    {
        if b[i] == c {
            return Some(i);
        }
        i = i + 1;
    }
    None
}

/// Last occurrence of the byte `c` in `b[lo..hi]`.
pub fn rfind_byte_exec(b: &[u8], lo: usize, hi: usize, c: u8) -> (r: Option<usize>)
    requires
        lo <= hi <= b@.len(),
    ensures
        r matches Some(p) ==> rfind_byte(b@, lo as int, hi as int, c) == Some(p as int),
        r is None ==> rfind_byte(b@, lo as int, hi as int, c) is None,
{
    let mut j = hi;
    while j > lo
        invariant
            lo <= j <= hi <= b@.len(),
            rfind_byte(b@, lo as int, j as int, c) == rfind_byte(b@, lo as int, hi as int, c),
        decreases j - lo,
    {
        if b[j - 1] == c {
            return Some(j - 1);
        }
        j = j - 1;
    }
    None
}

/// First occurrence of `pat` inside `b[lo..hi]` (`str::find`).
pub fn find_pat_exec(b: &[u8], lo: usize, hi: usize, pat: &[u8]) -> (r: Option<usize>)
    requires
        lo <= hi <= b@.len(),
    ensures
        r matches Some(p) ==> find_pat(b@, lo as int, hi as int, pat@) == Some(p as int),
        r is None ==> find_pat(b@, lo as int, hi as int, pat@) is None,
{
    let mut i = lo;
    loop
        invariant
            lo <= i <= hi <= b@.len(),
            find_pat(b@, i as int, hi as int, pat@) == find_pat(b@, lo as int, hi as int, pat@),
        decreases hi - i,
    {
        if pat.len() > hi - i {
            return None;
        }
        if matches_at_exec(b, i, hi, pat) {
            return Some(i);
        }
        if i == hi {
            assert(find_pat(b@, i + 1, hi as int, pat@) is None);
            return None;
        }
        i = i + 1;
    }
}

/// Last occurrence of `pat` inside `b[lo..hi]` (`str::rfind`).
pub fn rfind_pat_exec(b: &[u8], lo: usize, hi: usize, pat: &[u8]) -> (r: Option<usize>)
    requires
        lo <= hi <= b@.len(),
    ensures
        r matches Some(p) ==> rfind_pat(b@, lo as int, hi as int, pat@) == Some(p as int),
        r is None ==> rfind_pat(b@, lo as int, hi as int, pat@) is None,
{
    let mut j = hi;
    loop
        invariant
            lo <= j <= hi <= b@.len(),
            rfind_pat(b@, lo as int, j as int, pat@) == rfind_pat(b@, lo as int, hi as int, pat@),
        decreases j - lo,
    {
        if pat.len() > j - lo {
            return None;
        }
        if matches_at_exec(b, j - pat.len(), j, pat) {
            return Some(j - pat.len());
        }
        if j == lo {
            assert(rfind_pat(b@, lo as int, j - 1, pat@) is None);
            return None;
        }
        j = j - 1;
    }
}

// ---------------------------------------------------------------------------
// Building strings
/// Wraps `String::from_utf8`: for valid UTF-8 it returns the string those bytes encode.
#[verifier::external_body]
fn string_from_utf8(bytes: Vec<u8>) -> (s: String)
    requires
        valid_utf8(bytes@),
    ensures
        utf8(s@) == bytes@,
{
    String::from_utf8(bytes).unwrap_or_default()
}

/// Appends `b[start..end]` to `out`.
pub fn push_range(out: &mut Vec<u8>, b: &[u8], start: usize, end: usize)
    requires
        start <= end <= b@.len(),
    ensures
        final(out)@ == old(out)@ + b@.subrange(start as int, end as int),
{
    let ghost old_out = out@;
    let mut i = start;
    while i < end
        invariant
            start <= i <= end <= b@.len(),
            out@ == old_out + b@.subrange(start as int, i as int),
        decreases end - i,
    {
        out.push(b[i]);
        i = i + 1;
        assert(out@ =~= old_out + b@.subrange(start as int, i as int));
    }
}

/// Appends the bytes of `s` to `out`.
pub fn push_str(out: &mut Vec<u8>, s: &str)
    ensures
        final(out)@ == old(out)@ + utf8(s@),
{
    let b = s.as_bytes();
    push_range(out, b, 0, b.len());
    assert(b@.subrange(0, b@.len() as int) =~= b@);
}

/// The string encoded by valid UTF-8 bytes.
pub fn bytes_to_string(bytes: Vec<u8>) -> (s: String)
    requires
        valid_utf8(bytes@),
    ensures
        utf8(s@) == bytes@,
{
    string_from_utf8(bytes)
}

/// The piece `b[start..end]` of UTF-8 text as an owned string.
pub fn substring(b: &[u8], start: usize, end: usize) -> (s: String)
    requires
        valid_utf8(b@),
        start <= end <= b@.len(),
        char_boundary(b@, start as int),
        char_boundary(b@, end as int),
    ensures
        utf8(s@) == b@.subrange(start as int, end as int),
{
    let mut out: Vec<u8> = Vec::new();
    push_range(&mut out, b, start, end);
    proof {
        assert(out@ =~= b@.subrange(start as int, end as int));
        lemma_valid_subrange(b@, start as int, end as int);
    }
    string_from_utf8(out)
}

/// An owned string made of ASCII bytes.
pub fn ascii_string(bytes: Vec<u8>) -> (s: String)
    requires
        all_ascii(bytes@),
    ensures
        utf8(s@) == bytes@,
{
    proof {
        lemma_ascii_valid(bytes@);
    }
    string_from_utf8(bytes)
}


/// Appends one ASCII byte, keeping the buffer valid UTF-8.
pub fn push_ascii(out: &mut Vec<u8>, x: u8)
    requires
        x < 0x80,
        valid_utf8(old(out)@),
    ensures
        final(out)@ == old(out)@.push(x),
        valid_utf8(final(out)@),
{
    proof {
        let one = seq![x];
        assert(all_ascii(one));
        lemma_ascii_valid(one);
        assert(old(out)@.push(x) =~= old(out)@ + one);
    }
    out.push(x);
}

/// Appends the piece `c[x..y]` cut at two character boundaries, keeping the buffer valid.
pub fn push_piece(out: &mut Vec<u8>, c: &[u8], x: usize, y: usize)
    requires
        valid_utf8(c@),
        valid_utf8(old(out)@),
        x <= y <= c@.len(),
        char_boundary(c@, x as int),
        char_boundary(c@, y as int),
    ensures
        final(out)@ == old(out)@ + c@.subrange(x as int, y as int),
        valid_utf8(final(out)@),
{
    proof {
        lemma_valid_subrange(c@, x as int, y as int);
    }
    push_range(out, c, x, y);
}

/// Two character boundaries around a piece of valid text make the piece valid.
pub proof fn lemma_piece_valid(c: Seq<u8>, x: int, y: int)
    requires
        valid_utf8(c),
        0 <= x <= y <= c.len(),
        char_boundary(c, x),
        char_boundary(c, y),
    ensures
        valid_utf8(c.subrange(x, y)),
{
    lemma_valid_subrange(c, x, y);
}

/// The UTF-8 bytes of a string are valid UTF-8.
pub proof fn lemma_str_valid(s: Seq<char>)
    ensures
        valid_utf8(utf8(s)),
{
    encode_utf8_valid_utf8(s);
}

/// Whether two byte strings are equal.
pub fn bytes_eq(a: &[u8], b: &[u8]) -> (r: bool)
    ensures
        r == (a@ == b@),
{
    if a.len() != b.len() {
        return false;
    }
    let mut i: usize = 0;
    while i < a.len()
        invariant
            a@.len() == b@.len(),
            i <= a@.len(),
            forall|k: int| 0 <= k < i ==> a@[k] == b@[k],
        decreases a@.len() - i,
    {
        if a[i] != b[i] {
            return false;
        }
        i = i + 1;
    }
    assert(a@ =~= b@);
    true
}

/// Two strings with the same UTF-8 bytes are the same string.
pub proof fn lemma_utf8_injective(s: Seq<char>, t: Seq<char>)
    requires
        utf8(s) == utf8(t),
    ensures
        s == t,
{
    encode_utf8_decode_utf8(s);
    encode_utf8_decode_utf8(t);
}

/// Whether two strings are equal.
pub fn str_eq(a: &str, b: &str) -> (r: bool)
    ensures
        r == (a@ == b@),
{
    let r = bytes_eq(a.as_bytes(), b.as_bytes());
    proof {
        if r {
            lemma_utf8_injective(a@, b@);
        }
    }
    r
}

/// The UTF-8 encoding of a concatenation is the concatenation of the encodings.
pub proof fn lemma_utf8_concat(a: Seq<char>, b: Seq<char>)
    ensures
        utf8(a + b) == utf8(a) + utf8(b),
    decreases a.len(),
{
    if a.len() == 0 {
        assert(a + b =~= b);
    } else {
        lemma_utf8_concat(a.drop_first(), b);
        assert((a + b).drop_first() =~= a.drop_first() + b);
        assert((a + b)[0] == a[0]);
    }
}

/// Appends the bytes of `s` to a buffer of valid UTF-8, which stays valid.
pub fn push_text(out: &mut Vec<u8>, s: &str)
    requires
        valid_utf8(old(out)@),
    ensures
        final(out)@ == old(out)@ + utf8(s@),
        valid_utf8(final(out)@),
{
    proof {
        lemma_str_valid(s@);
    }
    push_str(out, s);
}

/// The concatenation of two strings.
pub fn concat2(a: &str, b: &str) -> (s: String)
    ensures
        s@ == a@ + b@,
{
    let mut out: Vec<u8> = Vec::new();
    proof {
        lemma_ascii_valid(out@);
    }
    push_text(&mut out, a);
    push_text(&mut out, b);
    let s = bytes_to_string(out);
    proof {
        lemma_utf8_concat(a@, b@);
        assert(utf8(s@) == utf8(a@ + b@));
        lemma_utf8_injective(s@, a@ + b@);
    }
    s
}

/// The concatenation of three strings.
pub fn concat3(a: &str, b: &str, c: &str) -> (s: String)
    ensures
        s@ == a@ + b@ + c@,
{
    let ab = concat2(a, b);
    concat2(ab.as_str(), c)
}

/// ASCII characters encode as one byte each, their code.
pub proof fn lemma_utf8_ascii(s: Seq<char>)
    requires
        forall|i: int| 0 <= i < s.len() ==> (s[i] as u32) < 0x80,
    ensures
        utf8(s) == s.map_values(|c: char| (c as u32) as u8),
    decreases s.len(),
{
    if s.len() > 0 {
        let c = s[0] as u32;
        assert((c & 0x7F) == c) by (bit_vector)
            requires
                c < 0x80,
        ;
        lemma_utf8_ascii(s.drop_first());
        assert(utf8(s) =~= s.map_values(|c: char| (c as u32) as u8));
    }
}

/// Valid UTF-8 holds its whole first character, whose width its leading byte tells.
pub proof fn lemma_first_char_width(s: Seq<u8>)
    requires
        valid_utf8(s),
        s.len() > 0,
    ensures
        (if s[0] < 0x80 {
            1int
        } else if s[0] < 0xe0 {
            2int
        } else if s[0] < 0xf0 {
            3int
        } else {
            4int
        }) <= s.len(),
{
    assert(valid_first_scalar(s));
}

} // verus!
