//! The tokens of each line: comments, document markers, sequence dashes, directives, `let`
//! bindings, control keywords, mapping keys, tags, block scalars and inline values.
use vstd::prelude::*;

use crate::semantic_tokens::inline::{
    inline_from, lemma_word_bounds, push_tok, tokenize_inline, RawToken, BLOCK, COMMENT, DECLARATION,
    DECORATOR, DEPRECATED, IMPORT, INCLUDE, INVALID, KEYWORD, MACRO, OPERATOR, PROPERTY, STRING, VARIABLE,
};
use crate::semantic_tokens::scan::{
    find_mapping_colon, find_mapping_colon_exec, scan_value_end, scan_value_end_exec, skip_spaces, skip_spaces_exec,
    trim_end_ws, trim_end_ws_exec, word_end, word_end_exec,
};
use crate::text::{char_boundary, count_run, find_byte, find_byte_exec, run_of, skip_ws_back, trim_end_at, ws_width, ws_width_at};

verus! {

fn push_token(out: &mut Vec<RawToken>, s: usize, t: usize, ty: u32, m: u32)
    ensures
        final(out)@ == push_tok(old(out)@, s as int, t as int, ty, m),
{
    if s < t {
        out.push(RawToken { start: s, end: t, token_type: ty, modifiers: m });
    }
}

/// The directive named `b[s..n]` is `@use`, `@import` or `@include`.
pub open spec fn is_use(b: Seq<u8>, s: int, n: int) -> bool {
    n - s == 4 && b[s] == 0x40 && b[s + 1] == 0x75 && b[s + 2] == 0x73 && b[s + 3] == 0x65
}

pub open spec fn is_include(b: Seq<u8>, s: int, n: int) -> bool {
    n - s == 8 && b[s] == 0x40 && b[s + 1] == 0x69 && b[s + 2] == 0x6e && b[s + 3] == 0x63 && b[s + 4] == 0x6c
        && b[s + 5] == 0x75 && b[s + 6] == 0x64 && b[s + 7] == 0x65
}

pub open spec fn is_import(b: Seq<u8>, s: int, n: int) -> bool {
    n - s == 7 && b[s] == 0x40 && b[s + 1] == 0x69 && b[s + 2] == 0x6d && b[s + 3] == 0x70 && b[s + 4] == 0x6f
        && b[s + 5] == 0x72 && b[s + 6] == 0x74
}

/// A directive line from `s`: its name, then an import target, `as` and its alias, and the rest.
pub open spec fn directive_tokens(b: Seq<u8>, s: int, e: int, out: Seq<RawToken>) -> Seq<RawToken> {
    let n = word_end(b, s + 1, e);
    let dep: u32 = if is_use(b, s, n) { DEPRECATED } else { 0 };
    let out1 = push_tok(out, s, n, DECORATOR, dep);
    let c = skip_spaces(b, n, e);
    if c >= e {
        out1
    } else if is_import(b, s, n) || is_include(b, s, n) || is_use(b, s, n) {
        let te = scan_value_end(b, c, e);
        let tm: u32 = dep | (if is_include(b, s, n) { INCLUDE } else { IMPORT });
        let out2 = push_tok(out1, c, te, STRING, tm);
        let c2 = skip_spaces(b, te, e);
        if c2 + 2 <= e && b[c2] == 0x61 && b[c2 + 1] == 0x73 && (c2 + 2 == e || ws_width(b, c2 + 2, e) > 0) {
            let out3 = push_tok(out2, c2, c2 + 2, KEYWORD, 0);
            let a = skip_spaces(b, c2 + 2, e);
            let ae = word_end(b, a, e);
            let out4 = push_tok(out3, a, ae, VARIABLE, DECLARATION | dep);
            inline_from(b, skip_spaces(b, ae, e), e, 0, out4)
        } else {
            inline_from(b, c2, e, 0, out2)
        }
    } else {
        inline_from(b, c, e, 0, out1)
    }
}

/// A `let` line from `s`: the keyword, the name, `=` and the value.
pub open spec fn let_tokens(b: Seq<u8>, s: int, e: int, out: Seq<RawToken>) -> Seq<RawToken> {
    let out1 = push_tok(out, s, s + 3, KEYWORD, 0);
    let ns = skip_spaces(b, s + 3, e);
    match find_byte(b, ns, e, 0x3d) {
        Some(q) => {
            let out2 = push_tok(out1, ns, trim_end_ws(b, ns, q), VARIABLE, DECLARATION);
            let out3 = push_tok(out2, q, q + 1, OPERATOR, 0);
            inline_from(b, skip_spaces(b, q + 1, e), e, 0, out3)
        },
        None => push_tok(out1, ns, e, VARIABLE, DECLARATION | INVALID),
    }
}

/// A keyword `b[c..word_end]` and the inline rest.
pub open spec fn keyword_tokens(b: Seq<u8>, c: int, e: int, out: Seq<RawToken>) -> Seq<RawToken> {
    let t = word_end(b, c + 1, e);
    inline_from(b, skip_spaces(b, t, e), e, 0, push_tok(out, c, t, KEYWORD, 0))
}

pub open spec fn starts_control(b: Seq<u8>, c: int, e: int) -> bool {
    ||| (e - c >= 3 && b[c] == 0x3f && b[c + 1] == 0x69 && b[c + 2] == 0x66)
    ||| (e - c >= 5 && b[c] == 0x3f && b[c + 1] == 0x65 && b[c + 2] == 0x6c && b[c + 3] == 0x69 && b[c + 4] == 0x66)
    ||| (e - c >= 5 && b[c] == 0x3f && b[c + 1] == 0x65 && b[c + 2] == 0x6c && b[c + 3] == 0x73 && b[c + 4] == 0x65)
    ||| (e - c >= 4 && b[c] == 0x2a && b[c + 1] == 0x66 && b[c + 2] == 0x6f && b[c + 3] == 0x72)
}

/// The content of a line from `c`, after any sequence dash: its tokens and the block
/// indent that a `|` or `>` header opens.
pub open spec fn content_tokens(b: Seq<u8>, c: int, e: int, indent: int, out: Seq<RawToken>) -> (Seq<RawToken>, Option<int>) {
    if c >= e {
        (out, None)
    } else if b[c] == 0x40 {
        (directive_tokens(b, c, e, out), None)
    } else if e - c >= 4 && b[c] == 0x6c && b[c + 1] == 0x65 && b[c + 2] == 0x74 && b[c + 3] == 0x20 {
        (let_tokens(b, c, e, out), None)
    } else if e - c >= 3 && b[c] == 0x2e && b[c + 1] == 0x2e && b[c + 2] == 0x2e {
        (inline_from(b, skip_spaces(b, c + 3, e), e, 0, push_tok(out, c, c + 3, OPERATOR, 0)), None)
    } else if starts_control(b, c, e) {
        (keyword_tokens(b, c, e, out), None)
    } else {
        match find_mapping_colon(b, c, e) {
            Some((ks, ke, colon)) => {
                let out1 = push_tok(push_tok(out, ks, ke, PROPERTY, 0), colon, colon + 1, OPERATOR, 0);
                let vs = skip_spaces(b, colon + 1, e);
                if vs < e {
                    if b[vs] == 0x7c || b[vs] == 0x3e {
                        (inline_from(b, vs + 1, e, 0, push_tok(out1, vs, vs + 1, OPERATOR, 0)), Some(indent + 2))
                    } else {
                        (inline_from(b, vs, e, 0, out1), None)
                    }
                } else {
                    (out1, None)
                }
            },
            None => if b[c] == 0x21 {
                let t = word_end(b, c + 1, e);
                (inline_from(b, skip_spaces(b, t, e), e, 0, push_tok(out, c, t, MACRO, 0)), None)
            } else {
                (inline_from(b, c, e, 0, out), None)
            },
        }
    }
}

/// One line `b[s..e]` under the open block indent `block`: its tokens, the block indent after
/// it, and whether the line could be read without cutting a character.
pub open spec fn line_tokens(b: Seq<u8>, s: int, e: int, block: Option<int>, out: Seq<RawToken>) -> (Seq<RawToken>, Option<int>, bool) {
    let indent = run_of(b, s, e, 0x20);
    let cs = s + indent;
    let te = skip_ws_back(b, cs, e);
    let in_block = match block {
        Some(x) => te == cs || indent >= x,
        None => false,
    };
    if in_block {
        let x = block->0;
        let st = if s + x < e { s + x } else { e };
        let bts = skip_spaces(b, st, e);
        let lua = (e - bts >= 2 && b[bts] == 0x24 && b[bts + 1] == 0x7b) || (e - bts >= 4 && b[bts] == 0x6c && b[
            bts + 1
        ] == 0x75 && b[bts + 2] == 0x61 && b[bts + 3] == 0x7b);
        let toks = if lua {
            inline_from(b, bts, e, BLOCK, out)
        } else {
            push_tok(out, st, e, STRING, BLOCK)
        };
        (toks, block, char_boundary(b, bts))
    } else if te == cs {
        (out, None, true)
    } else if te - cs == 3 && ((b[cs] == 0x2d && b[cs + 1] == 0x2d && b[cs + 2] == 0x2d) || (b[cs] == 0x2e && b[cs
        + 1] == 0x2e && b[cs + 2] == 0x2e)) {
        (push_tok(out, cs, e, OPERATOR, 0), None, true)
    } else if b[cs] == 0x23 {
        (push_tok(out, cs, e, COMMENT, 0), None, true)
    } else {
        let dash = b[cs] == 0x2d && (cs + 1 == e || ws_width(b, cs + 1, e) > 0);
        let out1 = if dash { push_tok(out, cs, cs + 1, OPERATOR, 0) } else { out };
        let c = if dash { skip_spaces(b, cs + 1, e) } else { cs };
        let (toks, blk) = content_tokens(b, c, e, indent, out1);
        (toks, blk, true)
    }
}

/// Where the line that starts at `s` ends.
pub open spec fn line_end(b: Seq<u8>, s: int) -> int {
    match find_byte(b, s, b.len() as int, 0x0a) {
        Some(p) => p,
        None => b.len() as int,
    }
}

/// The tokens of the lines from `s` on, and whether every line could be read.
pub open spec fn lines_from(b: Seq<u8>, s: int, block: Option<int>, out: Seq<RawToken>, ok: bool) -> (Seq<RawToken>, bool)
    decreases b.len() + 1 - s,
{
    if s < 0 || s >= b.len() {
        (out, ok)
    } else {
        let e = line_end(b, s);
        let (toks, blk, line_ok) = line_tokens(b, s, e, block, out);
        lines_from(b, if s <= e <= b.len() { e + 1 } else { s + 1 }, blk, toks, ok && line_ok)
    }
}

/// The tokens of a text, line by line, in the order they are found.
pub open spec fn raw_tokens(b: Seq<u8>) -> (Seq<RawToken>, bool) {
    lines_from(b, 0, None, Seq::empty(), true)
}

fn directive_exec(out: &mut Vec<RawToken>, b: &[u8], s: usize, e: usize)
    requires
        s < e <= b@.len(),
    ensures
        final(out)@ == directive_tokens(b@, s as int, e as int, old(out)@),
{
    let n = word_end_exec(b, s + 1, e);
    let is_use = n - s == 4 && b[s] == 0x40 && b[s + 1] == 0x75 && b[s + 2] == 0x73 && b[s + 3] == 0x65;
    let is_include = n - s == 8 && b[s] == 0x40 && b[s + 1] == 0x69 && b[s + 2] == 0x6e && b[s + 3] == 0x63
        && b[s + 4] == 0x6c && b[s + 5] == 0x75 && b[s + 6] == 0x64 && b[s + 7] == 0x65;
    let is_import = n - s == 7 && b[s] == 0x40 && b[s + 1] == 0x69 && b[s + 2] == 0x6d && b[s + 3] == 0x70
        && b[s + 4] == 0x6f && b[s + 5] == 0x72 && b[s + 6] == 0x74;
    let dep: u32 = if is_use { DEPRECATED } else { 0 };
    push_token(out, s, n, DECORATOR, dep);
    let c = skip_spaces_exec(b, n, e);
    if c >= e {
        return;
    }
    if is_import || is_include || is_use {
        let te = scan_value_end_exec(b, c, e);
        let tm: u32 = dep | (if is_include { INCLUDE } else { IMPORT });
        push_token(out, c, te, STRING, tm);
        let c2 = skip_spaces_exec(b, te, e);
        if e - c2 >= 2 && b[c2] == 0x61 && b[c2 + 1] == 0x73 && (c2 + 2 == e || ws_width_at(b, c2 + 2, e) > 0) {
            push_token(out, c2, c2 + 2, KEYWORD, 0);
            let a = skip_spaces_exec(b, c2 + 2, e);
            let ae = word_end_exec(b, a, e);
            push_token(out, a, ae, VARIABLE, DECLARATION | dep);
            let r = skip_spaces_exec(b, ae, e);
            tokenize_inline(out, b, r, e, 0);
        } else {
            tokenize_inline(out, b, c2, e, 0);
        }
    } else {
        tokenize_inline(out, b, c, e, 0);
    }
}

fn let_exec(out: &mut Vec<RawToken>, b: &[u8], s: usize, e: usize)
    requires
        s + 4 <= e <= b@.len(),
    ensures
        final(out)@ == let_tokens(b@, s as int, e as int, old(out)@),
{
    push_token(out, s, s + 3, KEYWORD, 0);
    let ns = skip_spaces_exec(b, s + 3, e);
    proof {
        crate::text::lemma_find_byte_bounds(b@, ns as int, e as int, 0x3d);
    }
    match find_byte_exec(b, ns, e, 0x3d) {
        Some(q) => {
            let ne = trim_end_ws_exec(b, ns, q);
            push_token(out, ns, ne, VARIABLE, DECLARATION);
            push_token(out, q, q + 1, OPERATOR, 0);
            let r = skip_spaces_exec(b, q + 1, e);
            tokenize_inline(out, b, r, e, 0);
        },
        None => {
            push_token(out, ns, e, VARIABLE, DECLARATION | INVALID);
        },
    }
}

fn content_exec(out: &mut Vec<RawToken>, b: &[u8], c: usize, e: usize, indent: usize) -> (r: Option<usize>)
    requires
        c <= e <= b@.len(),
        indent + 2 <= usize::MAX,
    ensures
        final(out)@ == content_tokens(b@, c as int, e as int, indent as int, old(out)@).0,
        match content_tokens(b@, c as int, e as int, indent as int, old(out)@).1 {
            Some(x) => r matches Some(y) && y as int == x,
            None => r is None,
        },
{
    if c >= e {
        return None;
    }
    if b[c] == 0x40 {
        directive_exec(out, b, c, e);
        return None;
    }
    if e - c >= 4 && b[c] == 0x6c && b[c + 1] == 0x65 && b[c + 2] == 0x74 && b[c + 3] == 0x20 {
        let_exec(out, b, c, e);
        return None;
    }
    if e - c >= 3 && b[c] == 0x2e && b[c + 1] == 0x2e && b[c + 2] == 0x2e {
        push_token(out, c, c + 3, OPERATOR, 0);
        let r = skip_spaces_exec(b, c + 3, e);
        tokenize_inline(out, b, r, e, 0);
        return None;
    }
    let control = (e - c >= 3 && b[c] == 0x3f && b[c + 1] == 0x69 && b[c + 2] == 0x66) || (e - c >= 5 && b[c]
        == 0x3f && b[c + 1] == 0x65 && b[c + 2] == 0x6c && b[c + 3] == 0x69 && b[c + 4] == 0x66) || (e - c >= 5
        && b[c] == 0x3f && b[c + 1] == 0x65 && b[c + 2] == 0x6c && b[c + 3] == 0x73 && b[c + 4] == 0x65) || (e - c
        >= 4 && b[c] == 0x2a && b[c + 1] == 0x66 && b[c + 2] == 0x6f && b[c + 3] == 0x72);
    if control {
        let t = word_end_exec(b, c + 1, e);
        push_token(out, c, t, KEYWORD, 0);
        let r = skip_spaces_exec(b, t, e);
        tokenize_inline(out, b, r, e, 0);
        return None;
    }
    match find_mapping_colon_exec(b, c, e) {
        Some((ks, ke, colon)) => {
            push_token(out, ks, ke, PROPERTY, 0);
            push_token(out, colon, colon + 1, OPERATOR, 0);
            let vs = skip_spaces_exec(b, colon + 1, e);
            if vs < e {
                if b[vs] == 0x7c || b[vs] == 0x3e {
                    push_token(out, vs, vs + 1, OPERATOR, 0);
                    tokenize_inline(out, b, vs + 1, e, 0);
                    Some(indent + 2)
                } else {
                    tokenize_inline(out, b, vs, e, 0);
                    None
                }
            } else {
                None
            }
        },
        None => {
            if b[c] == 0x21 {
                let t = word_end_exec(b, c + 1, e);
                push_token(out, c, t, MACRO, 0);
                let r = skip_spaces_exec(b, t, e);
                tokenize_inline(out, b, r, e, 0);
            } else {
                tokenize_inline(out, b, c, e, 0);
            }
            None
        },
    }
}

fn line_exec(out: &mut Vec<RawToken>, b: &[u8], s: usize, e: usize, block: Option<usize>) -> (r: (Option<usize>, bool))
    requires
        s <= e <= b@.len(),
        b@.len() < usize::MAX - 2,
        block matches Some(x) ==> x <= b@.len() + 2,
    ensures
        ({
            let spec_block = match block {
                Some(x) => Some(x as int),
                None => None,
            };
            let (toks, blk, ok) = line_tokens(b@, s as int, e as int, spec_block, old(out)@);
            &&& final(out)@ == toks
            &&& r.1 == ok
            &&& match blk {
                Some(x) => r.0 matches Some(y) && y as int == x,
                None => r.0 is None,
            }
            &&& r.0 matches Some(x) ==> x <= b@.len() + 2
        }),
{
    let indent = count_run(b, s, e, 0x20);
    let cs = s + indent;
    let te = trim_end_at(b, cs, e);
    let in_block = match block {
        Some(x) => te == cs || indent >= x,
        None => false,
    };
    if in_block {
        let x = match block {
            Some(x) => x,
            None => 0,
        };
        let st = if x < e - s { s + x } else { e };
        let bts = skip_spaces_exec(b, st, e);
        let lua = (e - bts >= 2 && b[bts] == 0x24 && b[bts + 1] == 0x7b) || (e - bts >= 4 && b[bts] == 0x6c
            && b[bts + 1] == 0x75 && b[bts + 2] == 0x61 && b[bts + 3] == 0x7b);
        if lua {
            tokenize_inline(out, b, bts, e, BLOCK);
        } else {
            push_token(out, st, e, STRING, BLOCK);
        }
        let ok = bts == 0 || bts == b.len() || !(0x80 <= b[bts] && b[bts] <= 0xbf);
        return (block, ok);
    }
    if te == cs {
        return (None, true);
    }
    if te - cs == 3 && ((b[cs] == 0x2d && b[cs + 1] == 0x2d && b[cs + 2] == 0x2d) || (b[cs] == 0x2e && b[cs + 1]
        == 0x2e && b[cs + 2] == 0x2e)) {
        push_token(out, cs, e, OPERATOR, 0);
        return (None, true);
    }
    if b[cs] == 0x23 {
        push_token(out, cs, e, COMMENT, 0);
        return (None, true);
    }
    let dash = b[cs] == 0x2d && (cs + 1 == e || ws_width_at(b, cs + 1, e) > 0);
    let c = if dash {
        push_token(out, cs, cs + 1, OPERATOR, 0);
        skip_spaces_exec(b, cs + 1, e)
    } else {
        cs
    };
    let blk = content_exec(out, b, c, e, indent);
    (blk, true)
}

/// The tokens of a text's lines in the order they are found, and whether every line could be
/// read without cutting a character.
pub fn collect_raw(b: &[u8]) -> (r: (Vec<RawToken>, bool))
    requires
        b@.len() < usize::MAX - 2,
    ensures
        r.0@ == raw_tokens(b@).0,
        r.1 == raw_tokens(b@).1,
{
    let mut out: Vec<RawToken> = Vec::new();
    let mut ok = true;
    let mut block: Option<usize> = None;
    let mut s: usize = 0;
    while s < b.len()
        invariant
            s <= b@.len() + 1,
            b@.len() < usize::MAX - 2,
            block matches Some(x) ==> x <= b@.len() + 2,
            lines_from(b@, s as int, match block { Some(x) => Some(x as int), None => None }, out@, ok)
                == raw_tokens(b@),
        decreases b@.len() + 1 - s,
    {
        proof {
            crate::text::lemma_find_byte_bounds(b@, s as int, b@.len() as int, 0x0a);
        }
        let e = match find_byte_exec(b, s, b.len(), 0x0a) {
            Some(p) => p,
            None => b.len(),
        };
        assert(line_end(b@, s as int) == e);
        let ghost sb = match block {
            Some(x) => Some(x as int),
            None => None,
        };
        let ghost out0 = out@;
        let ghost ok0 = ok;
        let ghost lt = line_tokens(b@, s as int, e as int, sb, out0);
        assert(lines_from(b@, s as int, sb, out0, ok0) == lines_from(b@, e + 1, lt.1, lt.0, ok0 && lt.2));
        let (blk, line_ok) = line_exec(&mut out, b, s, e, block);
        assert(out@ == lt.0 && line_ok == lt.2);
        assert(match blk { Some(x) => Some(x as int), None => None } == lt.1);
        block = blk;
        ok = ok && line_ok;
        s = e + 1;
    }
    (out, ok)
}

} // verus!
