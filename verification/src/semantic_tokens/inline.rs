//! The tokens of a run of inline text: strings, Lua, tags, decorators, punctuation, numbers
//! and words.
use vstd::prelude::*;

use crate::semantic_tokens::scan::{
    braced_from, ends_word_like, is_digit, number_from, quoted_from, scan_braced_exec, scan_number,
    scan_number_exec, scan_quoted, scan_quoted_exec, word_end, word_end_exec, word_like_end, word_like_end_exec,
};
use crate::text::piece_eq;

verus! {

pub const KEYWORD: u32 = 0;
pub const PROPERTY: u32 = 1;
pub const STRING: u32 = 2;
pub const NUMBER: u32 = 3;
pub const COMMENT: u32 = 4;
pub const OPERATOR: u32 = 5;
pub const DECORATOR: u32 = 6;
pub const VARIABLE: u32 = 7;
pub const MACRO: u32 = 8;
pub const BOOLEAN: u32 = 9;
pub const NULL: u32 = 10;
pub const LUA: u32 = 11;

pub const DECLARATION: u32 = 1;
pub const BLOCK: u32 = 2;
pub const IMPORT: u32 = 4;
pub const INCLUDE: u32 = 8;
pub const DEPRECATED: u32 = 16;
pub const INVALID: u32 = 32;

/// A token as byte offsets, with its type and modifier bits; ordered by its fields in turn.
#[derive(Debug, Clone, Copy, PartialEq, Eq, PartialOrd, Ord, Structural)]
pub struct RawToken {
    pub start: usize,
    pub end: usize,
    pub token_type: u32,
    pub modifiers: u32,
}

/// Adds the token `b[s..t]` unless it is empty.
pub open spec fn push_tok(out: Seq<RawToken>, s: int, t: int, ty: u32, m: u32) -> Seq<RawToken> {
    if s < t {
        out.push(RawToken { start: s as usize, end: t as usize, token_type: ty, modifiers: m })
    } else {
        out
    }
}

/// The token type of a plain word.
pub open spec fn word_type(p: Seq<u8>) -> u32 {
    if p == seq![0x74u8, 0x72, 0x75, 0x65] || p == seq![0x66u8, 0x61, 0x6c, 0x73, 0x65] {
        BOOLEAN
    } else if p == seq![0x6eu8, 0x75, 0x6c, 0x6c] || p == seq![0x6eu8, 0x69, 0x6c] {
        NULL
    } else if p == seq![0x61u8, 0x73] || p == seq![0x69u8, 0x6e] || p == seq![0x6cu8, 0x65, 0x74] || p == seq![
        0x66u8,
        0x6f,
        0x72,
    ] || p == seq![0x69u8, 0x66] || p == seq![0x65u8, 0x6c, 0x69, 0x66] || p == seq![0x65u8, 0x6c, 0x73, 0x65] {
        KEYWORD
    } else {
        STRING
    }
}

pub open spec fn is_punct(c: u8) -> bool {
    c == 0x3a || c == 0x5b || c == 0x5d || c == 0x7b || c == 0x7d || c == 0x2c
}

pub open spec fn is_arith(c: u8) -> bool {
    c == 0x2b || c == 0x2a || c == 0x2f || c == 0x25
}

/// One step of the inline tokenizer at `s < e`: the tokens it adds, where it goes on, and
/// whether it stops.
pub open spec fn inline_step(b: Seq<u8>, s: int, e: int, m: u32, out: Seq<RawToken>) -> (Seq<RawToken>, int, bool) {
    let c = b[s];
    if c == 0x20 || c == 0x09 {
        (out, s + 1, false)
    } else if c == 0x23 {
        (push_tok(out, s, e, COMMENT, 0), e, true)
    } else if c == 0x22 || c == 0x27 {
        let t = scan_quoted(b, s, e);
        (push_tok(out, s, t, STRING, m | (if b[t - 1] == c { 0u32 } else { INVALID })), t, false)
    } else if c == 0x24 && s + 1 < e && b[s + 1] == 0x7b {
        let t = braced_from(b, s + 1, e, 0);
        (push_tok(out, s, t, LUA, m | (if b[t - 1] == 0x7d { 0u32 } else { INVALID })), t, false)
    } else if c == 0x3d {
        (push_tok(out, s, e, LUA, m), e, true)
    } else if c == 0x6c && s + 4 <= e && b[s + 1] == 0x75 && b[s + 2] == 0x61 && b[s + 3] == 0x7b {
        let t = braced_from(b, s + 3, e, 0);
        (push_tok(out, s, t, LUA, m | (if b[t - 1] == 0x7d { 0u32 } else { INVALID })), t, false)
    } else if c == 0x21 {
        let t = word_end(b, s + 1, e);
        (push_tok(out, s, t, MACRO, m), t, false)
    } else if c == 0x40 {
        let t = word_end(b, s + 1, e);
        (push_tok(out, s, t, DECORATOR, m | (if t == s + 1 { INVALID } else { 0u32 })), t, false)
    } else if is_punct(c) {
        (push_tok(out, s, s + 1, OPERATOR, m), s + 1, false)
    } else if c == 0x2e && s + 3 <= e && b[s + 1] == 0x2e && b[s + 2] == 0x2e {
        (push_tok(out, s, s + 3, OPERATOR, m), s + 3, false)
    } else if c == 0x2e {
        (push_tok(out, s, s + 1, OPERATOR, m | INVALID), s + 1, false)
    } else if is_arith(c) {
        (push_tok(out, s, s + 1, OPERATOR, m), s + 1, false)
    } else if c == 0x2d {
        if s + 1 < e && is_digit(b[s + 1]) {
            let t = scan_number(b, s, e);
            (push_tok(out, s, t, NUMBER, m), t, false)
        } else {
            (push_tok(out, s, s + 1, OPERATOR, m), s + 1, false)
        }
    } else if is_digit(c) {
        let t = scan_number(b, s, e);
        (push_tok(out, s, t, NUMBER, m), t, false)
    } else {
        let t = word_like_end(b, s, e);
        if t == s {
            (push_tok(out, s, s + 1, OPERATOR, m | INVALID), s + 1, false)
        } else {
            (push_tok(out, s, t, word_type(b.subrange(s, t)), m), t, false)
        }
    }
}

pub proof fn lemma_quoted_bounds(b: Seq<u8>, c: int, e: int, q: u8)
    requires
        0 <= c <= e <= b.len(),
    ensures
        c <= quoted_from(b, c, e, q) <= e,
    decreases e - c,
{
    if c < e {
        if b[c] == 0x5c {
            lemma_quoted_bounds(b, if c + 2 < e { c + 2 } else { e }, e, q);
        } else if b[c] != q {
            lemma_quoted_bounds(b, c + 1, e, q);
        }
    }
}

pub proof fn lemma_braced_bounds(b: Seq<u8>, c: int, e: int, d: nat)
    requires
        0 <= c <= e <= b.len(),
    ensures
        c <= braced_from(b, c, e, d) <= e,
        c < e ==> c < braced_from(b, c, e, d),
    decreases e - c,
{
    if c < e {
        if b[c] == 0x7b {
            lemma_braced_bounds(b, c + 1, e, d + 1);
        } else if b[c] == 0x7d {
            if !(d == 0 || d == 1) {
                lemma_braced_bounds(b, c + 1, e, (d - 1) as nat);
            }
        } else {
            lemma_braced_bounds(b, c + 1, e, d);
        }
    }
}

pub proof fn lemma_word_bounds(b: Seq<u8>, s: int, e: int)
    requires
        0 <= s <= e <= b.len(),
    ensures
        s <= word_end(b, s, e) <= e,
        s <= word_like_end(b, s, e) <= e,
        s <= number_from(b, s, e) <= e,
    decreases e - s,
{
    if s < e {
        lemma_word_bounds(b, s + 1, e);
    }
}

/// Each step moves on and stays within the run.
pub proof fn lemma_step_advances(b: Seq<u8>, s: int, e: int, m: u32, out: Seq<RawToken>)
    requires
        0 <= s < e <= b.len(),
    ensures
        s < inline_step(b, s, e, m, out).1 <= e,
{
    lemma_quoted_bounds(b, s + 1, e, b[s]);
    lemma_word_bounds(b, s, e);
    lemma_word_bounds(b, s + 1, e);
    if s + 1 <= e {
        lemma_braced_bounds(b, s + 1, e, 0);
    }
    if s + 3 <= e {
        lemma_braced_bounds(b, s + 3, e, 0);
    }
}

/// The tokens of `b[s..e]` after `out`.
pub open spec fn inline_from(b: Seq<u8>, s: int, e: int, m: u32, out: Seq<RawToken>) -> Seq<RawToken>
    decreases e - s,
{
    if s < 0 || s >= e || e > b.len() {
        out
    } else {
        let (next_out, next, stop) = inline_step(b, s, e, m, out);
        if stop {
            next_out
        } else {
            proof {
                lemma_step_advances(b, s, e, m, out);
            }
            inline_from(b, next, e, m, next_out)
        }
    }
}

fn push_token(out: &mut Vec<RawToken>, s: usize, t: usize, ty: u32, m: u32)
    ensures
        final(out)@ == push_tok(old(out)@, s as int, t as int, ty, m),
{
    if s < t {
        out.push(RawToken { start: s, end: t, token_type: ty, modifiers: m });
    }
}

fn word_type_exec(b: &[u8], s: usize, t: usize) -> (r: u32)
    requires
        s <= t <= b@.len(),
    ensures
        r == word_type(b@.subrange(s as int, t as int)),
{
    let w_true: Vec<u8> = vec![0x74, 0x72, 0x75, 0x65];
    let w_false: Vec<u8> = vec![0x66, 0x61, 0x6c, 0x73, 0x65];
    let w_null: Vec<u8> = vec![0x6e, 0x75, 0x6c, 0x6c];
    let w_nil: Vec<u8> = vec![0x6e, 0x69, 0x6c];
    let w_as: Vec<u8> = vec![0x61, 0x73];
    let w_in: Vec<u8> = vec![0x69, 0x6e];
    let w_let: Vec<u8> = vec![0x6c, 0x65, 0x74];
    let w_for: Vec<u8> = vec![0x66, 0x6f, 0x72];
    let w_if: Vec<u8> = vec![0x69, 0x66];
    let w_elif: Vec<u8> = vec![0x65, 0x6c, 0x69, 0x66];
    let w_else: Vec<u8> = vec![0x65, 0x6c, 0x73, 0x65];
    assert(w_true@ =~= seq![0x74u8, 0x72, 0x75, 0x65]);
    assert(w_false@ =~= seq![0x66u8, 0x61, 0x6c, 0x73, 0x65]);
    assert(w_null@ =~= seq![0x6eu8, 0x75, 0x6c, 0x6c]);
    assert(w_nil@ =~= seq![0x6eu8, 0x69, 0x6c]);
    assert(w_as@ =~= seq![0x61u8, 0x73]);
    assert(w_in@ =~= seq![0x69u8, 0x6e]);
    assert(w_let@ =~= seq![0x6cu8, 0x65, 0x74]);
    assert(w_for@ =~= seq![0x66u8, 0x6f, 0x72]);
    assert(w_if@ =~= seq![0x69u8, 0x66]);
    assert(w_elif@ =~= seq![0x65u8, 0x6c, 0x69, 0x66]);
    assert(w_else@ =~= seq![0x65u8, 0x6c, 0x73, 0x65]);
    if piece_eq(b, s, t, w_true.as_slice()) || piece_eq(b, s, t, w_false.as_slice()) {
        BOOLEAN
    } else if piece_eq(b, s, t, w_null.as_slice()) || piece_eq(b, s, t, w_nil.as_slice()) {
        NULL
    } else if piece_eq(b, s, t, w_as.as_slice()) || piece_eq(b, s, t, w_in.as_slice()) || piece_eq(
        b,
        s,
        t,
        w_let.as_slice(),
    ) || piece_eq(b, s, t, w_for.as_slice()) || piece_eq(b, s, t, w_if.as_slice()) || piece_eq(
        b,
        s,
        t,
        w_elif.as_slice(),
    ) || piece_eq(b, s, t, w_else.as_slice()) {
        KEYWORD
    } else {
        STRING
    }
}

/// Adds the tokens of `b[s..e]` to `out`, each with the modifiers `m` added.
pub fn tokenize_inline(out: &mut Vec<RawToken>, b: &[u8], s: usize, e: usize, m: u32)
    requires
        s <= e <= b@.len(),
    ensures
        final(out)@ == inline_from(b@, s as int, e as int, m, old(out)@),
{
    let mut i = s;
    while i < e
        invariant
            s <= i <= e <= b@.len(),
            inline_from(b@, i as int, e as int, m, out@) == inline_from(b@, s as int, e as int, m, old(out)@),
        decreases e - i,
    {
        let ghost before = out@;
        proof {
            lemma_step_advances(b@, i as int, e as int, m, out@);
        }
        let ghost step = inline_step(b@, i as int, e as int, m, out@);
        let c = b[i];
        if c == 0x20 || c == 0x09 {
            i = i + 1;
        } else if c == 0x23 {
            push_token(out, i, e, COMMENT, 0);
            return;
        } else if c == 0x22 || c == 0x27 {
            let t = scan_quoted_exec(b, i, e);
            let inv = if b[t - 1] == c { 0u32 } else { INVALID };
            push_token(out, i, t, STRING, m | inv);
            i = t;
        } else if c == 0x24 && i + 1 < e && b[i + 1] == 0x7b {
            let t = scan_braced_exec(b, i + 1, e);
            proof {
                crate::semantic_tokens::inline::lemma_braced_bounds(b@, i + 1, e as int, 0);
            }
            let inv = if b[t - 1] == 0x7d { 0u32 } else { INVALID };
            push_token(out, i, t, LUA, m | inv);
            i = t;
        } else if c == 0x3d {
            push_token(out, i, e, LUA, m);
            return;
        } else if c == 0x6c && e - i >= 4 && b[i + 1] == 0x75 && b[i + 2] == 0x61 && b[i + 3] == 0x7b {
            let t = scan_braced_exec(b, i + 3, e);
            proof {
                lemma_braced_bounds(b@, i + 3, e as int, 0);
            }
            let inv = if b[t - 1] == 0x7d { 0u32 } else { INVALID };
            push_token(out, i, t, LUA, m | inv);
            i = t;
        } else if c == 0x21 {
            let t = word_end_exec(b, i + 1, e);
            push_token(out, i, t, MACRO, m);
            i = t;
        } else if c == 0x40 {
            let t = word_end_exec(b, i + 1, e);
            let inv = if t == i + 1 { INVALID } else { 0u32 };
            push_token(out, i, t, DECORATOR, m | inv);
            i = t;
        } else if c == 0x3a || c == 0x5b || c == 0x5d || c == 0x7b || c == 0x7d || c == 0x2c {
            push_token(out, i, i + 1, OPERATOR, m);
            i = i + 1;
        } else if c == 0x2e && e - i >= 3 && b[i + 1] == 0x2e && b[i + 2] == 0x2e {
            push_token(out, i, i + 3, OPERATOR, m);
            i = i + 3;
        } else if c == 0x2e {
            push_token(out, i, i + 1, OPERATOR, m | INVALID);
            i = i + 1;
        } else if c == 0x2b || c == 0x2a || c == 0x2f || c == 0x25 {
            push_token(out, i, i + 1, OPERATOR, m);
            i = i + 1;
        } else if c == 0x2d {
            if i + 1 < e && 0x30 <= b[i + 1] && b[i + 1] <= 0x39 {
                let t = scan_number_exec(b, i, e);
                push_token(out, i, t, NUMBER, m);
                i = t;
            } else {
                push_token(out, i, i + 1, OPERATOR, m);
                i = i + 1;
            }
        } else if 0x30 <= c && c <= 0x39 {
            let t = scan_number_exec(b, i, e);
            push_token(out, i, t, NUMBER, m);
            i = t;
        } else {
            let t = word_like_end_exec(b, i, e);
            if t == i {
                push_token(out, i, i + 1, OPERATOR, m | INVALID);
                i = i + 1;
            } else {
                let ty = word_type_exec(b, i, t);
                push_token(out, i, t, ty, m);
                i = t;
            }
        }
        assert(out@ == step.0 && i == step.1);
    }
}

} // verus!
