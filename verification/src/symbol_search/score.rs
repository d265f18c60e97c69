//! How well a workspace symbol matches a query: a substring hit scores by its position,
//! else the query's characters in order score by where they fall.
use vstd::prelude::*;
use vstd::utf8::{decode_utf8, encode_utf8, valid_utf8};

use crate::code_actions::edit_distance::{chars_of, lower_char, lower_char_exec, lower_chars};
use crate::formatting::trimmed_piece;
use crate::semantic::trim_range;
use crate::text::{bytes_to_string, find_pat, find_pat_exec, lemma_str_valid, substring, utf8};

verus! {

broadcast use vstd::utf8::encode_utf8_decode_utf8, vstd::utf8::encode_utf8_valid_utf8;

/// The characters of a text without white space at either end (`str::trim`).
pub open spec fn trimmed(s: Seq<char>) -> Seq<char> {
    let b = utf8(s);
    let (ts, te) = trim_range(b, 0, b.len() as int);
    decode_utf8(b.subrange(ts, te))
}

/// `str::trim`, as an owned string.
pub fn trim_text(s: &str) -> (r: String)
    ensures
        r@ == trimmed(s@),
{
    let b = s.as_bytes();
    proof {
        lemma_str_valid(s@);
    }
    let (ts, te) = trimmed_piece(b, 0, b.len());
    let r = substring(b, ts, te);
    proof {
        vstd::utf8::encode_utf8_decode_utf8(r@);
    }
    r
}

/// `s + t` saturating at `u32::MAX`.
pub open spec fn sat_add(s: u32, t: u32) -> u32 {
    if s + t > u32::MAX {
        u32::MAX
    } else {
        (s + t) as u32
    }
}

/// `s - t` saturating at 0.
pub open spec fn sat_sub(s: u32, t: u32) -> u32 {
    if s < t {
        0
    } else {
        (s - t) as u32
    }
}

/// Scans `c` from index `ci` for the query's characters from `qi` on, in order; every hit
/// adds 100 and what is left of 50 after its index.
pub open spec fn fuzzy(q: Seq<char>, c: Seq<char>, qi: int, ci: int, score: u32) -> Option<u32>
    decreases c.len() - ci,
{
    if ci < 0 || ci >= c.len() || qi < 0 || qi >= q.len() {
        None
    } else if c[ci] == q[qi] {
        let next = sat_add(sat_add(score, 100), sat_sub(50, ci as u32));
        if qi + 1 >= q.len() {
            Some(next)
        } else {
            fuzzy(q, c, qi + 1, ci + 1, next)
        }
    } else {
        fuzzy(q, c, qi, ci + 1, score)
    }
}

/// The query's characters in order inside the candidate, scored; none for an empty query.
pub open spec fn fuzzy_subsequence_score(q: Seq<char>, c: Seq<char>) -> Option<u32> {
    fuzzy(q, c, 0, 0, 0)
}

pub fn fuzzy_subsequence_score_exec(q: &Vec<char>, c: &Vec<char>) -> (r: Option<u32>)
    ensures
        r == fuzzy_subsequence_score(q@, c@),
{
    let qn = q.len();
    if qn == 0 {
        return None;
    }
    let mut qi: usize = 0;
    let mut score: u32 = 0;
    let n = c.len();
    let mut ci: usize = 0;
    while ci < n
        invariant
            ci <= n,
            n == c@.len(),
            qn == q@.len(),
            qi < qn,
            fuzzy(q@, c@, qi as int, ci as int, score) == fuzzy(q@, c@, 0, 0, 0),
        decreases n - ci,
    {
        if c[ci] == q[qi] {
            let idx: u32 = ci as u32;
            let bonus: u32 = if idx < 50 { 50 - idx } else { 0 };
            let s1: u32 = if score > u32::MAX - 100 { u32::MAX } else { score + 100 };
            let next: u32 = if s1 > u32::MAX - bonus { u32::MAX } else { s1 + bonus };
            if qi + 1 >= qn {
                return Some(next);
            }
            qi = qi + 1;
            score = next;
        }
        ci = ci + 1;
    }
    None
}

/// ASCII upper-case bytes made lower case.
pub open spec fn lower_byte(x: u8) -> u8 {
    if 0x41 <= x <= 0x5a {
        (x + 32) as u8
    } else {
        x
    }
}

pub open spec fn lower_bytes(b: Seq<u8>) -> Seq<u8> {
    b.map_values(|x: u8| lower_byte(x))
}

proof fn lemma_high_bit(y: u8)
    by (bit_vector)
    ensures
        (0x80u8 | y) >= 0x80,
        (0xC0u8 | y) >= 0x80,
        (0xE0u8 | y) >= 0x80,
        (0xF0u8 | y) >= 0x80,
{
}

proof fn lemma_lower_scalar(c: char)
    ensures
        lower_bytes(vstd::utf8::encode_scalar(c as u32)) == vstd::utf8::encode_scalar(lower_char(c) as u32),
{
    let v = c as u32;
    let e = vstd::utf8::encode_scalar(v);
    if vstd::utf8::has_width_1_encoding(v) {
        assert((v & 0x7F) == v) by (bit_vector)
            requires
                v < 0x80,
        ;
        assert(e =~= seq![v as u8]);
        if 'A' <= c <= 'Z' {
            let w = (v + 32) as u32;
            assert(lower_char(c) as u32 == w);
            assert((w & 0x7F) == w) by (bit_vector)
                requires
                    w < 0x80,
            ;
            assert(vstd::utf8::has_width_1_encoding(w));
            assert(vstd::utf8::encode_scalar(w) =~= seq![w as u8]);
            assert(lower_bytes(e) =~= seq![w as u8]);
        } else {
            assert(lower_char(c) == c);
            assert(lower_bytes(e) =~= e);
        }
    } else {
        lemma_high_bit(((v >> 6) & 0x1F) as u8);
        lemma_high_bit(((v >> 12) & 0x0F) as u8);
        lemma_high_bit(((v >> 18) & 0x7) as u8);
        lemma_high_bit((v & 0x3F) as u8);
        lemma_high_bit(((v >> 6) & 0x3F) as u8);
        lemma_high_bit(((v >> 12) & 0x3F) as u8);
        assert(lower_char(c) == c);
        assert forall|j: int| 0 <= j < e.len() implies lower_bytes(e)[j] == e[j] by {
            assert(e[j] >= 0x80);
        }
        assert(lower_bytes(e) =~= e);
    }
}

/// Lowering the bytes of a text is lowering its characters.
pub proof fn lemma_lower_encoded(cs: Seq<char>)
    ensures
        lower_bytes(encode_utf8(cs)) == encode_utf8(lower_chars(cs)),
    decreases cs.len(),
{
    if cs.len() == 0 {
        assert(lower_bytes(encode_utf8(cs)) =~= Seq::<u8>::empty());
        assert(lower_chars(cs) =~= Seq::<char>::empty());
    } else {
        let head = vstd::utf8::encode_scalar(cs[0] as u32);
        let tail = encode_utf8(cs.drop_first());
        lemma_lower_encoded(cs.drop_first());
        lemma_lower_scalar(cs[0]);
        assert(lower_bytes(head + tail) =~= lower_bytes(head) + lower_bytes(tail));
        assert(lower_chars(cs).drop_first() =~= lower_chars(cs.drop_first()));
        assert(lower_chars(cs)[0] == lower_char(cs[0]));
    }
}

/// The lower-case text and its characters.
fn lower_text(s: &str) -> (r: (Vec<u8>, Vec<char>))
    ensures
        r.0@ == utf8(lower_chars(s@)),
        r.1@ == lower_chars(s@),
{
    let b = s.as_bytes();
    let mut out: Vec<u8> = Vec::new();
    let n = b.len();
    let mut i: usize = 0;
    while i < n
        invariant
            i <= n,
            n == b@.len(),
            out@ == lower_bytes(b@.subrange(0, i as int)),
        decreases n - i,
    {
        let x = b[i];
        let y: u8 = if 0x41 <= x && x <= 0x5a { x + 32 } else { x };
        out.push(y);
        proof {
            assert(lower_bytes(b@.subrange(0, i + 1)) =~= lower_bytes(b@.subrange(0, i as int)).push(y));
        }
        i = i + 1;
    }
    proof {
        assert(b@.subrange(0, n as int) =~= b@);
        lemma_lower_encoded(s@);
    }
    let copy = out.clone();
    let text = bytes_to_string(copy);
    let chars = chars_of(text.as_str());
    proof {
        vstd::utf8::encode_utf8_decode_utf8(text@);
        vstd::utf8::encode_utf8_decode_utf8(lower_chars(s@));
    }
    (out, chars)
}

/// A candidate's score: a substring hit of the query in the trimmed, lower-cased candidate
/// scores 10000 less its byte index; else the fuzzy score. Blank candidates score nothing.
pub open spec fn score_candidate(q: Seq<char>, candidate: Seq<char>) -> Option<u32> {
    let t = trimmed(candidate);
    if t.len() == 0 {
        None
    } else {
        let lower = lower_chars(t);
        let lb = utf8(lower);
        match find_pat(lb, 0, lb.len() as int, utf8(q)) {
            Some(i) => Some(sat_sub(10000, i as u32)),
            None => fuzzy_subsequence_score(q, lower),
        }
    }
}

pub fn score_candidate_exec(query: &str, q: &Vec<char>, candidate: &str) -> (r: Option<u32>)
    requires
        q@ == query@,
    ensures
        r == score_candidate(query@, candidate@),
{
    let t = trim_text(candidate);
    let tb = t.as_str().as_bytes();
    if tb.len() == 0 {
        return None;
    }
    let (lb, lc) = lower_text(t.as_str());
    let qb = query.as_bytes();
    match find_pat_exec(lb.as_slice(), 0, lb.len(), qb) {
        Some(i) => {
            let idx: u32 = i as u32;
            Some(if idx > 10000 { 0 } else { 10000 - idx })
        },
        None => fuzzy_subsequence_score_exec(q, &lc),
    }
}

/// The larger of two optional scores.
pub open spec fn best(a: Option<u32>, b: Option<u32>) -> Option<u32> {
    match (a, b) {
        (None, x) => x,
        (x, None) => x,
        (Some(x), Some(y)) => Some(if x >= y { x } else { y }),
    }
}

pub open spec fn best_of(q: Seq<char>, cs: Seq<Seq<char>>, k: int) -> Option<u32>
    decreases k,
{
    if k <= 0 {
        None
    } else {
        best(best_of(q, cs, k - 1), score_candidate(q, cs[k - 1]))
    }
}

/// The best score of any searchable text; an empty query matches everything with 1.
pub open spec fn score_match(q: Seq<char>, cs: Seq<Seq<char>>) -> Option<u32> {
    if q.len() == 0 {
        Some(1)
    } else {
        best_of(q, cs, cs.len() as int)
    }
}

pub open spec fn texts_view(v: Seq<String>) -> Seq<Seq<char>> {
    v.map_values(|s: String| s@)
}

pub fn score_match_exec(query: &str, searchable: &Vec<String>) -> (r: Option<u32>)
    ensures
        r == score_match(query@, texts_view(searchable@)),
{
    let ghost cs = texts_view(searchable@);
    let q = chars_of(query);
    if q.len() == 0 {
        return Some(1);
    }
    let mut acc: Option<u32> = None;
    let n = searchable.len();
    let mut k: usize = 0;
    while k < n
        invariant
            k <= n,
            n == searchable@.len(),
            cs == texts_view(searchable@),
            q@ == query@,
            acc == best_of(query@, cs, k as int),
        decreases n - k,
    {
        let s = score_candidate_exec(query, &q, searchable[k].as_str());
        proof {
            assert(cs[k as int] == searchable@[k as int]@);
        }
        acc = match (acc, s) {
            (None, x) => x,
            (x, None) => x,
            (Some(x), Some(y)) => Some(if x >= y { x } else { y }),
        };
        k = k + 1;
    }
    acc
}

/// The query as it is matched: trimmed and lower case.
pub open spec fn normalized_query(query: Seq<char>) -> Seq<char> {
    lower_chars(trimmed(query))
}

pub fn normalize_query(query: &str) -> (r: String)
    ensures
        r@ == normalized_query(query@),
{
    let t = trim_text(query);
    let (lb, _) = lower_text(t.as_str());
    proof {
        lemma_str_valid(lower_chars(t@));
    }
    let r = bytes_to_string(lb);
    proof {
        crate::text::lemma_utf8_injective(r@, lower_chars(t@));
    }
    r
}

} // verus!
