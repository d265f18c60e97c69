//! The static type that a hint shows for an inline value.
use vstd::prelude::*;

use crate::ast::ScalarKind;
use crate::semantic::trim_range;
use crate::text::{lemma_str_valid, matches_at, utf8};

verus! {

pub open spec fn is_digit(c: u8) -> bool {
    0x30 <= c <= 0x39
}

/// Where the run of digits from `i` ends.
pub open spec fn digits_end(t: Seq<u8>, i: int) -> int
    decreases t.len() - i,
{
    if 0 <= i < t.len() && is_digit(t[i]) {
        digits_end(t, i + 1)
    } else {
        i
    }
}

pub open spec fn lower_ascii(c: u8) -> u8 {
    if 0x41 <= c <= 0x5a {
        (c + 32) as u8
    } else {
        c
    }
}

/// `t[i..]` is `word` (lower case ASCII) in any case.
pub open spec fn is_word_from(t: Seq<u8>, i: int, word: Seq<u8>) -> bool {
    t.len() - i == word.len() && forall|k: int| 0 <= k < word.len() ==> lower_ascii(#[trigger] t[i + k]) == word[k]
}

/// "inf"
pub open spec fn inf_word() -> Seq<u8> {
    seq![0x69u8, 0x6eu8, 0x66u8]
}

/// "infinity"
pub open spec fn infinity_word() -> Seq<u8> {
    seq![0x69u8, 0x6eu8, 0x66u8, 0x69u8, 0x6eu8, 0x69u8, 0x74u8, 0x79u8]
}

/// "nan"
pub open spec fn nan_word() -> Seq<u8> {
    seq![0x6eu8, 0x61u8, 0x6eu8]
}

/// An exponent `e`/`E`, an optional sign and digits, up to the end.
pub open spec fn exponent_from(t: Seq<u8>, i: int) -> bool {
    i < t.len() && (t[i] == 0x65 || t[i] == 0x45) && {
        let s = if i + 1 < t.len() && (t[i + 1] == 0x2b || t[i + 1] == 0x2d) {
            i + 2
        } else {
            i + 1
        };
        s < t.len() && digits_end(t, s) == t.len()
    }
}

/// Digits with an optional fraction (at least one digit in all), then an optional
/// exponent, up to the end.
pub open spec fn number_from(t: Seq<u8>, i: int) -> bool {
    let a = digits_end(t, i);
    let has_dot = a < t.len() && t[a] == 0x2e;
    let f = if has_dot {
        digits_end(t, a + 1)
    } else {
        a
    };
    let frac = if has_dot {
        f - (a + 1)
    } else {
        0
    };
    (a > i || frac > 0) && (f == t.len() || exponent_from(t, f))
}

/// What `str::parse::<f64>` accepts: an optional sign, then `inf`, `infinity`, `nan` in
/// any case, or a decimal number with an optional exponent.
pub open spec fn float_literal(t: Seq<u8>) -> bool {
    let s = if t.len() > 0 && (t[0] == 0x2b || t[0] == 0x2d) {
        1int
    } else {
        0int
    };
    is_word_from(t, s, inf_word()) || is_word_from(t, s, infinity_word()) || is_word_from(t, s, nan_word())
        || number_from(t, s)
}

fn digits_end_exec(t: &[u8], i: usize) -> (r: usize)
    requires
        i <= t@.len(),
    ensures
        r == digits_end(t@, i as int),
        i <= r <= t@.len(),
{
    let mut j = i;
    while j < t.len() && 0x30 <= t[j] && t[j] <= 0x39
        invariant
            i <= j <= t@.len(),
            digits_end(t@, j as int) == digits_end(t@, i as int),
        decreases t@.len() - j,
    {
        j = j + 1;
    }
    j
}

fn is_word_exec(t: &[u8], i: usize, word: &[u8]) -> (r: bool)
    requires
        i <= t@.len(),
    ensures
        r == is_word_from(t@, i as int, word@),
{
    let n = t.len();
    if n - i != word.len() {
        return false;
    }
    let mut k: usize = 0;
    while k < word.len()
        invariant
            k <= word@.len(),
            i <= t@.len(),
            n == t@.len(),
            t@.len() - i == word@.len(),
            forall|m: int| 0 <= m < k ==> lower_ascii(#[trigger] t@[i + m]) == word@[m],
        decreases word@.len() - k,
    {
        let c = t[i + k];
        let l: u8 = if 0x41 <= c && c <= 0x5a { c + 32 } else { c };
        if l != word[k] {
            return false;
        }
        k = k + 1;
    }
    true
}

fn exponent_exec(t: &[u8], i: usize) -> (r: bool)
    requires
        i <= t@.len(),
    ensures
        r == exponent_from(t@, i as int),
{
    if i >= t.len() || !(t[i] == 0x65 || t[i] == 0x45) {
        return false;
    }
    let s = if i + 1 < t.len() && (t[i + 1] == 0x2b || t[i + 1] == 0x2d) { i + 2 } else { i + 1 };
    s < t.len() && digits_end_exec(t, s) == t.len()
}

/// Whether the text reads as a floating-point number, as `str::parse::<f64>` has it.
pub fn is_float_literal(t: &[u8]) -> (r: bool)
    ensures
        r == float_literal(t@),
{
    let s: usize = if t.len() > 0 && (t[0] == 0x2b || t[0] == 0x2d) { 1 } else { 0 };
    let inf: [u8; 3] = [0x69, 0x6e, 0x66];
    let infinity: [u8; 8] = [0x69, 0x6e, 0x66, 0x69, 0x6e, 0x69, 0x74, 0x79];
    let nan: [u8; 3] = [0x6e, 0x61, 0x6e];
    proof {
        assert(inf@ =~= inf_word());
        assert(infinity@ =~= infinity_word());
        assert(nan@ =~= nan_word());
    }
    if is_word_exec(t, s, inf.as_slice()) || is_word_exec(t, s, infinity.as_slice()) || is_word_exec(
        t,
        s,
        nan.as_slice(),
    ) {
        return true;
    }
    let a = digits_end_exec(t, s);
    let has_dot = a < t.len() && t[a] == 0x2e;
    let f = if has_dot { digits_end_exec(t, a + 1) } else { a };
    let frac: usize = if has_dot { f - (a + 1) } else { 0 };
    (a > s || frac > 0) && (f == t.len() || exponent_exec(t, f))
}

/// The static type of an inline value: a `${...}` or `=` expression, a quoted string, a
/// boolean, null, a number, or plain text.
pub open spec fn inline_value_type(v: Seq<u8>) -> Seq<char> {
    let (s, e) = trim_range(v, 0, v.len() as int);
    let t = v.subrange(s, e);
    if matches_at(t, 0, t.len() as int, seq![0x24u8, 0x7bu8]) || matches_at(t, 0, t.len() as int, seq![0x3du8]) {
        "lua-expression"@
    } else if matches_at(t, 0, t.len() as int, seq![0x22u8]) || matches_at(t, 0, t.len() as int, seq![0x27u8]) {
        "string"@
    } else if t == utf8("true"@) || t == utf8("false"@) {
        "boolean"@
    } else if t == utf8("null"@) || t == utf8("nil"@) {
        "null"@
    } else if float_literal(t) {
        "number"@
    } else {
        "plain"@
    }
}

fn text_is(t: &[u8], word: &str) -> (r: bool)
    ensures
        r == (t@ == utf8(word@)),
{
    crate::text::bytes_eq(t, word.as_bytes())
}

pub fn infer_inline_value_type(value: &str) -> (r: &'static str)
    ensures
        r@ == inline_value_type(utf8(value@)),
{
    let b = value.as_bytes();
    proof {
        lemma_str_valid(value@);
    }
    let (s, e) = crate::formatting::trimmed_piece(b, 0, b.len());
    let mut t: Vec<u8> = Vec::new();
    crate::text::push_range(&mut t, b, s, e);
    assert(t@ =~= b@.subrange(s as int, e as int));
    let ts = t.as_slice();
    let lua: [u8; 2] = [0x24, 0x7b];
    let eq: [u8; 1] = [0x3d];
    let dq: [u8; 1] = [0x22];
    let sq: [u8; 1] = [0x27];
    proof {
        assert(lua@ =~= seq![0x24u8, 0x7bu8]);
        assert(eq@ =~= seq![0x3du8]);
        assert(dq@ =~= seq![0x22u8]);
        assert(sq@ =~= seq![0x27u8]);
    }
    let n = ts.len();
    if crate::text::matches_at_exec(ts, 0, n, lua.as_slice()) || crate::text::matches_at_exec(ts, 0, n, eq.as_slice()) {
        "lua-expression"
    } else if crate::text::matches_at_exec(ts, 0, n, dq.as_slice()) || crate::text::matches_at_exec(
        ts,
        0,
        n,
        sq.as_slice(),
    ) {
        "string"
    } else if text_is(ts, "true") || text_is(ts, "false") {
        "boolean"
    } else if text_is(ts, "null") || text_is(ts, "nil") {
        "null"
    } else if is_float_literal(ts) {
        "number"
    } else {
        "plain"
    }
}

/// The type a hint shows for a scalar.
pub open spec fn scalar_hint_type(kind: ScalarKind, text: Seq<u8>) -> Seq<char> {
    match kind {
        ScalarKind::Plain => inline_value_type(text),
        ScalarKind::String | ScalarKind::BlockString => "string"@,
        ScalarKind::Number => "number"@,
        ScalarKind::LuaExpression => "lua-expression"@,
        ScalarKind::LuaBlock => "lua-block"@,
    }
}

pub fn scalar_hint_type_exec(kind: ScalarKind, text: &str) -> (r: &'static str)
    ensures
        r@ == scalar_hint_type(kind, utf8(text@)),
{
    match kind {
        ScalarKind::Plain => infer_inline_value_type(text),
        ScalarKind::String | ScalarKind::BlockString => "string",
        ScalarKind::Number => "number",
        ScalarKind::LuaExpression => "lua-expression",
        ScalarKind::LuaBlock => "lua-block",
    }
}

} // verus!
