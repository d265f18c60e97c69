//! Token stream of a source file, used for semantic highlighting and debugging.
use vstd::prelude::*;
use vstd::utf8::{is_continuation_byte, valid_utf8};

use crate::syntax::{SourceSpan, SourceText, Token, TokenKind};
use crate::text::{
    char_boundary, lemma_boundary_after_ascii, lemma_str_valid, matches_at, substring, utf8,
};

verus! {

#[derive(Debug, Clone, PartialEq, Eq)]
pub struct LexResult {
    pub tokens: Vec<Token>,
}

/// `char::is_ascii_whitespace`: space, tab, line feed, form feed, carriage return.
pub open spec fn is_rust_ascii_ws(c: u8) -> bool {
    c == 0x20 || c == 0x09 || c == 0x0a || c == 0x0c || c == 0x0d
}

pub open spec fn is_word_byte(c: u8) -> bool {
    (0x30 <= c && c <= 0x39) || (0x41 <= c && c <= 0x5a) || (0x61 <= c && c <= 0x7a) || c == 0x5f
        || c == 0x2d || c == 0x3f
}

pub open spec fn is_digit_byte(c: u8) -> bool {
    0x30 <= c && c <= 0x39
}

/// `"---"` and `"..."` as bytes.
pub open spec fn dashes3() -> Seq<u8> {
    seq![0x2du8, 0x2du8, 0x2du8]
}

pub open spec fn dots3() -> Seq<u8> {
    seq![0x2eu8, 0x2eu8, 0x2eu8]
}

/// Whether the character at `idx` is absent or white space, as the lexer tests after
/// `---` and `...`: a byte that does not start a one-byte character counts as absent.
pub open spec fn boundary_at(b: Seq<u8>, idx: int) -> bool {
    idx >= b.len() || b[idx] >= 0x80 || (b[idx] == 0x20 || (0x09 <= b[idx] && b[idx] <= 0x0d))
}

pub open spec fn scan_while_word(b: Seq<u8>, i: int) -> int
    decreases b.len() - i,
{
    if 0 <= i < b.len() && is_word_byte(b[i]) {
        scan_while_word(b, i + 1)
    } else {
        i
    }
}

pub open spec fn scan_number(b: Seq<u8>, i: int) -> int
    decreases b.len() - i,
{
    if 0 <= i < b.len() && (is_digit_byte(b[i]) || b[i] == 0x2e) {
        scan_number(b, i + 1)
    } else {
        i
    }
}

pub open spec fn scan_to_byte(b: Seq<u8>, i: int, c: u8) -> int
    decreases b.len() - i,
{
    if 0 <= i < b.len() && b[i] != c {
        scan_to_byte(b, i + 1, c)
    } else {
        i
    }
}

/// End of a quoted string whose body starts at `i`: just past the closing quote, skipping
/// a backslash and the byte after it, or past the end of the text.
pub open spec fn scan_string(b: Seq<u8>, i: int, quote: u8) -> int
    decreases b.len() + 2 - i,
{
    if i < 0 || i >= b.len() {
        i
    } else if b[i] == 0x5c {
        scan_string(b, i + 2, quote)
    } else if b[i] == quote {
        i + 1
    } else {
        scan_string(b, i + 1, quote)
    }
}

pub open spec fn ends_plain(c: u8) -> bool {
    is_rust_ascii_ws(c) || c == 0x3a || c == 0x23 || c == 0x5b || c == 0x5d || c == 0x7b || c
        == 0x7d
}

/// End of a plain word whose scan continues at `j`; `None` where the scan would slice the
/// text inside a character (the lexer panics there).
pub open spec fn scan_plain(b: Seq<u8>, j: int) -> Option<int>
    decreases b.len() - j,
{
    if j < 0 || j >= b.len() {
        Some(j)
    } else if ends_plain(b[j]) {
        Some(j)
    } else if is_continuation_byte(b[j]) {
        None
    } else if matches_at(b, j, b.len() as int, dots3()) || matches_at(b, j, b.len() as int, dashes3()) {
        Some(j)
    } else {
        scan_plain(b, j + 1)
    }
}

/// Kind of a plain word `b[start..end]`.
pub open spec fn plain_kind(b: Seq<u8>, start: int, end: int) -> TokenKind {
    let w = b.subrange(start, end);
    if w == seq![0x6cu8, 0x65u8, 0x74u8] {
        TokenKind::KeywordLet
    } else if w == seq![0x61u8, 0x73u8] {
        TokenKind::KeywordAs
    } else if w == seq![0x69u8, 0x6eu8] {
        TokenKind::KeywordIn
    } else if w.len() > 0 && w[0] == 0x3d {
        TokenKind::PlainString
    } else {
        TokenKind::Identifier
    }
}

/// One step of the lexer at `i < b.len()`: the token it emits (kind, start, end), if any,
/// and where it continues; `None` where the lexer panics.
pub open spec fn lex_step(b: Seq<u8>, i: int) -> Option<(Option<(TokenKind, int, int)>, int)> {
    let c = b[i];
    let n = b.len() as int;
    if c == 0x20 || c == 0x09 {
        Some((None, i + 1))
    } else if c == 0x0a {
        Some((Some((TokenKind::LineBreak, i, i + 1)), i + 1))
    } else if c == 0x23 {
        let e = scan_to_byte(b, i, 0x0a);
        Some((Some((TokenKind::Comment, i, e)), e))
    } else if c == 0x3a {
        Some((Some((TokenKind::Colon, i, i + 1)), i + 1))
    } else if c == 0x2d {
        if matches_at(b, i, n, dashes3()) && boundary_at(b, i + 3) {
            Some((Some((TokenKind::DocumentSeparator, i, i + 3)), i + 3))
        } else {
            Some((Some((TokenKind::Dash, i, i + 1)), i + 1))
        }
    } else if c == 0x2e {
        if matches_at(b, i, n, dots3()) {
            let kind = if boundary_at(b, i + 3) {
                TokenKind::DocumentTerminator
            } else {
                TokenKind::Spread
            };
            Some((Some((kind, i, i + 3)), i + 3))
        } else {
            Some((Some((TokenKind::Unknown, i, i + 1)), i + 1))
        }
    } else if c == 0x3d {
        Some((Some((TokenKind::Equals, i, i + 1)), i + 1))
    } else if c == 0x5b {
        Some((Some((TokenKind::LeftBracket, i, i + 1)), i + 1))
    } else if c == 0x5d {
        Some((Some((TokenKind::RightBracket, i, i + 1)), i + 1))
    } else if c == 0x7b {
        Some((Some((TokenKind::LeftBrace, i, i + 1)), i + 1))
    } else if c == 0x7d {
        Some((Some((TokenKind::RightBrace, i, i + 1)), i + 1))
    } else if c == 0x7c || c == 0x3e {
        Some((Some((TokenKind::BlockHeader, i, i + 1)), i + 1))
    } else if c == 0x22 || c == 0x27 {
        let e = scan_string(b, i + 1, c);
        let e = if e <= n {
            e
        } else {
            n
        };
        Some((Some((TokenKind::String, i, e)), e))
    } else if c == 0x40 {
        let e = scan_while_word(b, i + 1);
        Some((Some((TokenKind::DirectiveName, i, e)), e))
    } else if c == 0x21 {
        let e = scan_while_word(b, i + 1);
        Some((Some((TokenKind::TagName, i, e)), e))
    } else if c == 0x24 && i + 1 < n && b[i + 1] == 0x7b {
        let e = scan_to_byte(b, i + 2, 0x7d);
        let e = if e + 1 <= n {
            e + 1
        } else {
            n
        };
        Some((Some((TokenKind::String, i, e)), e))
    } else if is_digit_byte(c) {
        let e = scan_number(b, i + 1);
        Some((Some((TokenKind::Number, i, e)), e))
    } else {
        match scan_plain(b, i + 1) {
            Some(e) => Some((Some((plain_kind(b, i, e), i, e)), e)),
            None => None,
        }
    }
}

/// Tokens the lexer emits from offset `i` on (before the end-of-file token); `None` where
/// it panics.
pub open spec fn lex_from(b: Seq<u8>, i: int) -> Option<Seq<(TokenKind, int, int)>>
    decreases b.len() - i,
{
    if i < 0 || i >= b.len() {
        Some(seq![])
    } else {
        match lex_step(b, i) {
            None => None,
            Some((tok, next)) => if next <= i || next > b.len() {
                None
            } else {
                match lex_from(b, next) {
                    None => None,
                    Some(rest) => match tok {
                        Some(t) => Some(seq![t] + rest),
                        None => Some(rest),
                    },
                }
            },
        }
    }
}

/// `lex` finishes on this text without panicking.
pub open spec fn lexes(b: Seq<u8>) -> bool {
    lex_from(b, 0) is Some
}

/// The token emitted for (kind, start, end) of the source.
pub open spec fn token_matches(t: Token, source: SourceText, raw: (TokenKind, int, int)) -> bool {
    &&& t.kind == raw.0
    &&& t.span == SourceSpan { file_id: source.file_id, start: raw.1 as usize, end: raw.2 as usize }
    &&& utf8(t.lexeme@) == source.bytes().subrange(raw.1, raw.2)
}

pub proof fn lemma_scan_bounds(b: Seq<u8>, i: int)
    requires
        0 <= i <= b.len(),
    ensures
        i <= scan_while_word(b, i) <= b.len(),
        i <= scan_number(b, i) <= b.len(),
        scan_while_word(b, i) < b.len() ==> !is_word_byte(b[scan_while_word(b, i)]),
        scan_number(b, i) < b.len() ==> !(is_digit_byte(b[scan_number(b, i)]) || b[scan_number(
            b,
            i,
        )] == 0x2e),
        forall|k: int| i <= k < scan_while_word(b, i) ==> is_word_byte(#[trigger] b[k]),
        forall|k: int| i <= k < scan_number(b, i) ==> #[trigger] b[k] < 0x80,
    decreases b.len() - i,
{
    if i < b.len() {
        lemma_scan_bounds(b, i + 1);
    }
}

pub proof fn lemma_scan_to_byte(b: Seq<u8>, i: int, c: u8)
    requires
        0 <= i <= b.len(),
    ensures
        i <= scan_to_byte(b, i, c) <= b.len(),
        scan_to_byte(b, i, c) < b.len() ==> b[scan_to_byte(b, i, c)] == c,
    decreases b.len() - i,
{
    if i < b.len() && b[i] != c {
        lemma_scan_to_byte(b, i + 1, c);
    }
}

pub proof fn lemma_scan_string(b: Seq<u8>, i: int, q: u8)
    requires
        0 <= i,
        q < 0x80,
    ensures
        i <= scan_string(b, i, q) <= b.len() + 1 || scan_string(b, i, q) == i,
        scan_string(b, i, q) >= i,
        i < scan_string(b, i, q) < b.len() ==> b[scan_string(b, i, q) - 1] == q,
        scan_string(b, i, q) == b.len() || scan_string(b, i, q) == b.len() + 1 || (
        scan_string(b, i, q) > i && scan_string(b, i, q) <= b.len() && b[scan_string(b, i, q) - 1]
            == q) || (i >= b.len() && scan_string(b, i, q) == i),
    decreases b.len() + 2 - i,
{
    if 0 <= i < b.len() {
        if b[i] == 0x5c {
            lemma_scan_string(b, i + 2, q);
        } else if b[i] != q {
            lemma_scan_string(b, i + 1, q);
        }
    }
}

pub proof fn lemma_scan_plain(b: Seq<u8>, j: int)
    requires
        0 <= j <= b.len(),
    ensures
        scan_plain(b, j) matches Some(e) ==> j <= e <= b.len() && (e == b.len() || b[e] < 0x80),
    decreases b.len() - j,
{
    if 0 <= j < b.len() && !ends_plain(b[j]) && !is_continuation_byte(b[j]) {
        if !(matches_at(b, j, b.len() as int, dots3()) || matches_at(
            b,
            j,
            b.len() as int,
            dashes3(),
        )) {
            lemma_scan_plain(b, j + 1);
        } else {
            if matches_at(b, j, b.len() as int, dots3()) {
                assert(b.subrange(j, j + 3)[0] == b[j]);
            } else {
                assert(b.subrange(j, j + 3)[0] == b[j]);
            }
        }
    }
}

/// Every token step starts and ends at a character boundary and moves forward.
pub proof fn lemma_lex_step(b: Seq<u8>, i: int)
    requires
        valid_utf8(b),
        0 <= i < b.len(),
        char_boundary(b, i),
        lex_step(b, i) is Some,
    ensures
        ({
            let (tok, next) = lex_step(b, i)->0;
            &&& i < next <= b.len()
            &&& char_boundary(b, next)
            &&& tok matches Some(t) ==> t.1 == i && t.1 <= t.2 <= b.len() && char_boundary(b, t.2)
        }),
{
    let c = b[i];
    let n = b.len() as int;
    lemma_scan_bounds(b, i + 1);
    lemma_scan_bounds(b, i);
    lemma_scan_to_byte(b, i, 0x0a);
    if i + 2 <= n {
        lemma_scan_bounds(b, i + 2);
        lemma_scan_to_byte(b, i + 2, 0x7d);
    }
    if c == 0x20 || c == 0x09 || c == 0x0a || c == 0x3a || c == 0x3d || c == 0x5b || c == 0x5d || c
        == 0x7b || c == 0x7d || c == 0x7c || c == 0x3e {
        lemma_boundary_after_ascii(b, i);
    } else if c == 0x23 {
        let e = scan_to_byte(b, i, 0x0a);
        if e < n {
            assert(b[e] == 0x0a);
        }
    } else if c == 0x2d || c == 0x2e {
        if matches_at(b, i, n, dashes3()) || matches_at(b, i, n, dots3()) {
            assert(b.subrange(i, i + 3)[2] == b[i + 2]);
            lemma_boundary_after_ascii(b, i + 2);
        } else {
            lemma_boundary_after_ascii(b, i);
        }
    } else if c == 0x22 || c == 0x27 {
        lemma_scan_string(b, i + 1, c);
        let e = scan_string(b, i + 1, c);
        if e < n {
            lemma_boundary_after_ascii(b, e - 1);
        }
    } else if c == 0x40 || c == 0x21 {
        let e = scan_while_word(b, i + 1);
        if e < n {
            assert(is_word_byte(b[e - 1]) || e - 1 == i);
            lemma_boundary_after_ascii(b, e - 1);
        }
    } else if c == 0x24 && i + 1 < n && b[i + 1] == 0x7b {
        let e = scan_to_byte(b, i + 2, 0x7d);
        if e + 1 < n {
            assert(b[e] == 0x7d);
            lemma_boundary_after_ascii(b, e);
        }
    } else if is_digit_byte(c) {
        let e = scan_number(b, i + 1);
        if e < n {
            assert(b[e - 1] < 0x80);
            lemma_boundary_after_ascii(b, e - 1);
        }
    } else {
        lemma_scan_plain(b, i + 1);
    }
}

pub proof fn lemma_lex_from_len(b: Seq<u8>, i: int)
    requires
        lex_from(b, i) is Some,
        0 <= i,
    ensures
        lex_from(b, i)->0.len() <= if i < b.len() {
            b.len() - i
        } else {
            0
        },
    decreases b.len() - i,
{
    if 0 <= i < b.len() {
        let (tok, next) = lex_step(b, i)->0;
        lemma_lex_from_len(b, next);
    }
}

fn is_word(c: u8) -> (r: bool)
    ensures
        r == is_word_byte(c),
{
    (0x30 <= c && c <= 0x39) || (0x41 <= c && c <= 0x5a) || (0x61 <= c && c <= 0x7a) || c == 0x5f
        || c == 0x2d || c == 0x3f
}

/// Whether the character at `idx` is absent or white space.
fn boundary(b: &[u8], idx: usize) -> (r: bool)
    ensures
        r == boundary_at(b@, idx as int),
{
    idx >= b.len() || b[idx] >= 0x80 || (b[idx] == 0x20 || (0x09 <= b[idx] && b[idx] <= 0x0d))
}

fn token(source: &SourceText, kind: TokenKind, start: usize, end: usize) -> (t: Token)
    requires
        start <= end <= source.bytes().len(),
        char_boundary(source.bytes(), start as int),
        char_boundary(source.bytes(), end as int),
    ensures
        token_matches(t, *source, (kind, start as int, end as int)),
{
    proof {
        lemma_str_valid(source.text@);
    }
    Token {
        kind,
        lexeme: substring(source.as_str().as_bytes(), start, end),
        span: SourceSpan::new(source.file_id, start, end),
    }
}

fn dashes3_at(b: &[u8], i: usize) -> (r: bool)
    requires
        i <= b@.len(),
    ensures
        r == matches_at(b@, i as int, b@.len() as int, dashes3()),
{
    let r = b.len() - i >= 3 && b[i] == 0x2d && b[i + 1] == 0x2d && b[i + 2] == 0x2d;
    proof {
        if r {
            assert(b@.subrange(i as int, i + 3) =~= dashes3());
        } else if b.len() - i >= 3 {
            assert(b@.subrange(i as int, i + 3)[0] == b@[i as int]);
            assert(b@.subrange(i as int, i + 3)[1] == b@[i + 1]);
            assert(b@.subrange(i as int, i + 3)[2] == b@[i + 2]);
        }
    }
    r
}

fn dots3_at(b: &[u8], i: usize) -> (r: bool)
    requires
        i <= b@.len(),
    ensures
        r == matches_at(b@, i as int, b@.len() as int, dots3()),
{
    let r = b.len() - i >= 3 && b[i] == 0x2e && b[i + 1] == 0x2e && b[i + 2] == 0x2e;
    proof {
        if r {
            assert(b@.subrange(i as int, i + 3) =~= dots3());
        } else if b.len() - i >= 3 {
            assert(b@.subrange(i as int, i + 3)[0] == b@[i as int]);
            assert(b@.subrange(i as int, i + 3)[1] == b@[i + 1]);
            assert(b@.subrange(i as int, i + 3)[2] == b@[i + 2]);
        }
    }
    r
}

fn plain_kind_of(b: &[u8], start: usize, end: usize) -> (k: TokenKind)
    requires
        start <= end <= b@.len(),
    ensures
        k == plain_kind(b@, start as int, end as int),
{
    let ghost w = b@.subrange(start as int, end as int);
    let len = end - start;
    if len == 3 && b[start] == 0x6c && b[start + 1] == 0x65 && b[start + 2] == 0x74 {
        assert(w =~= seq![0x6cu8, 0x65u8, 0x74u8]);
        TokenKind::KeywordLet
    } else if len == 2 && b[start] == 0x61 && b[start + 1] == 0x73 {
        assert(w =~= seq![0x61u8, 0x73u8]);
        assert(w != seq![0x6cu8, 0x65u8, 0x74u8]);
        TokenKind::KeywordAs
    } else if len == 2 && b[start] == 0x69 && b[start + 1] == 0x6e {
        assert(w =~= seq![0x69u8, 0x6eu8]);
        assert(w != seq![0x6cu8, 0x65u8, 0x74u8]);
        assert(w != seq![0x61u8, 0x73u8]);
        TokenKind::KeywordIn
    } else {
        proof {
            if w == seq![0x6cu8, 0x65u8, 0x74u8] {
                assert(w[0] == b@[start as int] && w[1] == b@[start + 1] && w[2] == b@[start + 2]);
            }
            if w == seq![0x61u8, 0x73u8] {
                assert(w[0] == b@[start as int] && w[1] == b@[start + 1]);
            }
            if w == seq![0x69u8, 0x6eu8] {
                assert(w[0] == b@[start as int] && w[1] == b@[start + 1]);
            }
        }
        if len > 0 && b[start] == 0x3d {
            TokenKind::PlainString
        } else {
            TokenKind::Identifier
        }
    }
}

/// Splits the whole text into tokens and appends an end-of-file token.
/// The tokens that lexing `source` gives: one per lexeme, then the end of the file.
pub open spec fn tokens_of(source: SourceText, tokens: Seq<Token>) -> bool {
    let raw = lex_from(source.bytes(), 0)->0;
    let n = source.bytes().len();
    &&& tokens.len() == raw.len() + 1
    &&& forall|k: int| 0 <= k < raw.len() ==> token_matches(#[trigger] tokens[k], source, raw[k])
    &&& tokens[raw.len() as int].kind == TokenKind::EndOfFile
    &&& tokens[raw.len() as int].lexeme@ == Seq::<char>::empty()
    &&& tokens[raw.len() as int].span == SourceSpan {
        file_id: source.file_id,
        start: n as usize,
        end: n as usize,
    }
}

pub fn lex(source: &SourceText) -> (result: LexResult)
    requires
        lexes(source.bytes()),
        source.bytes().len() <= isize::MAX,
    ensures
        tokens_of(*source, result.tokens@),
{
    let text = source.as_str();
    let bytes = text.as_bytes();
    let n = bytes.len();
    let ghost b = bytes@;
    proof {
        lemma_str_valid(source.text@);
    }
    let mut tokens: Vec<Token> = Vec::new();
    let mut i: usize = 0;
    while i < n
        invariant
            b == source.bytes(),
            bytes@ == b,
            n == b.len(),
            n <= isize::MAX,
            valid_utf8(b),
            i <= n,
            char_boundary(b, i as int),
            lex_from(b, i as int) is Some,
            ({
                let raw = lex_from(b, 0)->0;
                let rest = lex_from(b, i as int)->0;
                &&& tokens@.len() + rest.len() == raw.len()
                &&& forall|k: int| 0 <= k < tokens@.len() ==> token_matches(#[trigger] tokens@[k], *source, raw[k])
                &&& forall|k: int| 0 <= k < rest.len() ==> raw[tokens@.len() + k] == #[trigger] rest[k]
            }),
        decreases n - i,
    {
        proof {
            lemma_lex_step(b, i as int);
        }
        let ghost step = lex_step(b, i as int)->0;
        let ghost old_rest = lex_from(b, i as int)->0;
        let ghost old_len = tokens@.len();
        let c = bytes[i];
        let mut emitted: Option<(TokenKind, usize, usize)> = None;
        let next: usize;
        if c == 0x20 || c == 0x09 {
            next = i + 1;
            assert((lex_step(b, i as int)->0).1 == next as int);
        } else if c == 0x0a {
            emitted = Some((TokenKind::LineBreak, i, i + 1));
            next = i + 1;
            assert((lex_step(b, i as int)->0).1 == next as int);
        } else if c == 0x23 {
            let mut j = i;
            while j < n && bytes[j] != 0x0a
                invariant
                    i <= j <= n,
                    n == b.len(),
                    bytes@ == b,
                    scan_to_byte(b, j as int, 0x0a) == scan_to_byte(b, i as int, 0x0a),
                decreases n - j,
            {
                j = j + 1;
            }
            emitted = Some((TokenKind::Comment, i, j));
            next = j;
            assert((lex_step(b, i as int)->0).1 == next as int);
        } else if c == 0x3a {
            emitted = Some((TokenKind::Colon, i, i + 1));
            next = i + 1;
            assert((lex_step(b, i as int)->0).1 == next as int);
        } else if c == 0x2d {
            if dashes3_at(bytes, i) && boundary(bytes, i + 3) {
                emitted = Some((TokenKind::DocumentSeparator, i, i + 3));
                next = i + 3;
                assert((lex_step(b, i as int)->0).1 == next as int);
            } else {
                emitted = Some((TokenKind::Dash, i, i + 1));
                next = i + 1;
                assert((lex_step(b, i as int)->0).1 == next as int);
            }
        } else if c == 0x2e {
            if dots3_at(bytes, i) {
                let kind = if boundary(bytes, i + 3) {
                    TokenKind::DocumentTerminator
                } else {
                    TokenKind::Spread
                };
                emitted = Some((kind, i, i + 3));
                next = i + 3;
                assert((lex_step(b, i as int)->0).1 == next as int);
            } else {
                emitted = Some((TokenKind::Unknown, i, i + 1));
                next = i + 1;
                assert((lex_step(b, i as int)->0).1 == next as int);
            }
        } else if c == 0x3d {
            emitted = Some((TokenKind::Equals, i, i + 1));
            next = i + 1;
            assert((lex_step(b, i as int)->0).1 == next as int);
        } else if c == 0x5b {
            emitted = Some((TokenKind::LeftBracket, i, i + 1));
            next = i + 1;
            assert((lex_step(b, i as int)->0).1 == next as int);
        } else if c == 0x5d {
            emitted = Some((TokenKind::RightBracket, i, i + 1));
            next = i + 1;
            assert((lex_step(b, i as int)->0).1 == next as int);
        } else if c == 0x7b {
            emitted = Some((TokenKind::LeftBrace, i, i + 1));
            next = i + 1;
            assert((lex_step(b, i as int)->0).1 == next as int);
        } else if c == 0x7d {
            emitted = Some((TokenKind::RightBrace, i, i + 1));
            next = i + 1;
            assert((lex_step(b, i as int)->0).1 == next as int);
        } else if c == 0x7c || c == 0x3e {
            emitted = Some((TokenKind::BlockHeader, i, i + 1));
            next = i + 1;
            assert((lex_step(b, i as int)->0).1 == next as int);
        } else if c == 0x22 || c == 0x27 {
            let mut j = i + 1;
            let mut done = false;
            while j < n && !done
                invariant
                    i < j <= n + 1,
                    n == b.len(),
                    n <= isize::MAX,
                    bytes@ == b,
                    c < 0x80,
                    done ==> j as int == scan_string(b, i + 1, c),
                    !done ==> scan_string(b, j as int, c) == scan_string(b, i + 1, c),
                decreases n + 1 - j,
            {
                if bytes[j] == 0x5c {
                    j = j + 2;
                } else {
                    j = j + 1;
                    if bytes[j - 1] == c {
                        done = true;
                    }
                }
            }
            let e = if j <= n {
                j
            } else {
                n
            };
            emitted = Some((TokenKind::String, i, e));
            next = e;
            assert((lex_step(b, i as int)->0).1 == next as int);
        } else if c == 0x40 || c == 0x21 {
            let mut j = i + 1;
            while j < n && is_word(bytes[j])
                invariant
                    i < j <= n,
                    n == b.len(),
                    bytes@ == b,
                    scan_while_word(b, j as int) == scan_while_word(b, i + 1),
                decreases n - j,
            {
                j = j + 1;
            }
            let kind = if c == 0x40 {
                TokenKind::DirectiveName
            } else {
                TokenKind::TagName
            };
            emitted = Some((kind, i, j));
            next = j;
            assert((lex_step(b, i as int)->0).1 == next as int);
        } else if c == 0x24 && i + 1 < n && bytes[i + 1] == 0x7b {
            let mut j = i + 2;
            while j < n && bytes[j] != 0x7d
                invariant
                    i + 2 <= j <= n,
                    n == b.len(),
                    bytes@ == b,
                    scan_to_byte(b, j as int, 0x7d) == scan_to_byte(b, i + 2, 0x7d),
                decreases n - j,
            {
                j = j + 1;
            }
            let e = if j + 1 <= n {
                j + 1
            } else {
                n
            };
            emitted = Some((TokenKind::String, i, e));
            next = e;
            assert((lex_step(b, i as int)->0).1 == next as int);
        } else if 0x30 <= c && c <= 0x39 {
            let mut j = i + 1;
            while j < n && ((0x30 <= bytes[j] && bytes[j] <= 0x39) || bytes[j] == 0x2e)
                invariant
                    i < j <= n,
                    n == b.len(),
                    bytes@ == b,
                    scan_number(b, j as int) == scan_number(b, i + 1),
                decreases n - j,
            {
                j = j + 1;
            }
            emitted = Some((TokenKind::Number, i, j));
            next = j;
            assert((lex_step(b, i as int)->0).1 == next as int);
        } else {
            let mut j = i + 1;
            loop
                invariant
                    i < j <= n,
                    n == b.len(),
                    bytes@ == b,
                    scan_plain(b, j as int) == scan_plain(b, i + 1),
                    scan_plain(b, i + 1) is Some,
                ensures
                    i < j <= n,
                    scan_plain(b, i + 1) == Some(j as int),
                decreases n - j,
            {
                if j >= n {
                    break;
                }
                let d = bytes[j];
                if d == 0x20 || d == 0x09 || d == 0x0a || d == 0x0c || d == 0x0d || d == 0x3a || d
                    == 0x23 || d == 0x5b || d == 0x5d || d == 0x7b || d == 0x7d {
                    break;
                }
                if dots3_at(bytes, j) || dashes3_at(bytes, j) {
                    break;
                }
                j = j + 1;
            }
            let kind = plain_kind_of(bytes, i, j);
            emitted = Some((kind, i, j));
            next = j;
            assert((lex_step(b, i as int)->0).1 == next as int);
        }
        proof {
            assert(step.1 == next as int);
            match step.0 {
                Some(t) => {
                    assert(emitted matches Some(e) && e.0 == t.0 && e.1 as int == t.1 && e.2 as int
                        == t.2);
                },
                None => {
                    assert(emitted is None);
                },
            }
        }
        match emitted {
            Some((kind, start, end)) => {
                tokens.push(token(source, kind, start, end));
                proof {
                    let rest = lex_from(b, next as int)->0;
                    assert(old_rest =~= seq![step.0->0] + rest);
                    assert(old_rest[0] == step.0->0);
                    assert forall|k: int| 0 <= k < rest.len() implies lex_from(b, 0)->0[tokens@.len()
                        + k] == #[trigger] rest[k] by {
                        assert(old_rest[k + 1] == rest[k]);
                    }
                }
            },
            None => {
                proof {
                    let rest = lex_from(b, next as int)->0;
                    assert(old_rest =~= rest);
                }
            },
        }
        i = next;
    }
    proof {
        assert(lex_from(b, i as int)->0.len() == 0);
    }
    tokens.push(
        Token {
            kind: TokenKind::EndOfFile,
            lexeme: String::new(),
            span: SourceSpan::new(source.file_id, n, n),
        },
    );
    LexResult { tokens }
}

/// Where the lexer continues after the token at `i`; `None` where it would panic there.
fn lex_next(bytes: &[u8], i: usize) -> (r: Option<usize>)
    requires
        i < bytes@.len(),
        bytes@.len() <= isize::MAX,
    ensures
        match lex_step(bytes@, i as int) {
            Some((_, next)) => r == Some(next as usize) && next == r->0 as int,
            None => r is None,
        },
{
    let ghost b = bytes@;
    let n = bytes.len();
    let c = bytes[i];
    if c == 0x20 || c == 0x09 || c == 0x0a || c == 0x3a || c == 0x3d || c == 0x5b || c == 0x5d || c == 0x7b
        || c == 0x7d || c == 0x7c || c == 0x3e {
        Some(i + 1)
    } else if c == 0x23 {
        let mut j = i;
        while j < n && bytes[j] != 0x0a
            invariant
                i <= j <= n,
                n == b.len(),
                bytes@ == b,
                scan_to_byte(b, j as int, 0x0a) == scan_to_byte(b, i as int, 0x0a),
            decreases n - j,
        {
            j = j + 1;
        }
        Some(j)
    } else if c == 0x2d {
        if dashes3_at(bytes, i) && boundary(bytes, i + 3) {
            Some(i + 3)
        } else {
            Some(i + 1)
        }
    } else if c == 0x2e {
        if dots3_at(bytes, i) {
            Some(i + 3)
        } else {
            Some(i + 1)
        }
    } else if c == 0x22 || c == 0x27 {
        let mut j = i + 1;
        let mut done = false;
        while j < n && !done
            invariant
                i < j <= n + 1,
                n == b.len(),
                n <= isize::MAX,
                bytes@ == b,
                c < 0x80,
                done ==> j as int == scan_string(b, i + 1, c),
                !done ==> scan_string(b, j as int, c) == scan_string(b, i + 1, c),
            decreases n + 1 - j,
        {
            if bytes[j] == 0x5c {
                j = j + 2;
            } else {
                j = j + 1;
                if bytes[j - 1] == c {
                    done = true;
                }
            }
        }
        Some(if j <= n { j } else { n })
    } else if c == 0x40 || c == 0x21 {
        let mut j = i + 1;
        while j < n && is_word(bytes[j])
            invariant
                i < j <= n,
                n == b.len(),
                bytes@ == b,
                scan_while_word(b, j as int) == scan_while_word(b, i + 1),
            decreases n - j,
        {
            j = j + 1;
        }
        Some(j)
    } else if c == 0x24 && i + 1 < n && bytes[i + 1] == 0x7b {
        let mut j = i + 2;
        while j < n && bytes[j] != 0x7d
            invariant
                i + 2 <= j <= n,
                n == b.len(),
                bytes@ == b,
                scan_to_byte(b, j as int, 0x7d) == scan_to_byte(b, i + 2, 0x7d),
            decreases n - j,
        {
            j = j + 1;
        }
        Some(if j + 1 <= n { j + 1 } else { n })
    } else if 0x30 <= c && c <= 0x39 {
        let mut j = i + 1;
        while j < n && ((0x30 <= bytes[j] && bytes[j] <= 0x39) || bytes[j] == 0x2e)
            invariant
                i < j <= n,
                n == b.len(),
                bytes@ == b,
                scan_number(b, j as int) == scan_number(b, i + 1),
            decreases n - j,
        {
            j = j + 1;
        }
        Some(j)
    } else {
        let mut j = i + 1;
        loop
            invariant
                i < j <= n,
                n == b.len(),
                bytes@ == b,
                scan_plain(b, j as int) == scan_plain(b, i + 1),
                scan_plain(b, i + 1) is None ==> lex_step(b, i as int) is None,
                scan_plain(b, i + 1) matches Some(e) ==> lex_step(b, i as int) matches Some((_, x)) && x == e,
            ensures
                i < j <= n,
                scan_plain(b, i + 1) == Some(j as int),
                lex_step(b, i as int) matches Some((_, x)) && x == j,
            decreases n - j,
        {
            if j >= n {
                break;
            }
            let d = bytes[j];
            if d == 0x20 || d == 0x09 || d == 0x0a || d == 0x0c || d == 0x0d || d == 0x3a || d == 0x23 || d
                == 0x5b || d == 0x5d || d == 0x7b || d == 0x7d {
                break;
            }
            if 0x80 <= d && d <= 0xbf {
                return None;
            }
            if dots3_at(bytes, j) || dashes3_at(bytes, j) {
                break;
            }
            j = j + 1;
        }
        Some(j)
    }
}

/// Whether the lexer gets through these bytes without panicking.
pub fn lexes_bytes(bytes: &[u8]) -> (r: bool)
    requires
        bytes@.len() <= isize::MAX,
    ensures
        r == lexes(bytes@),
{
    let n = bytes.len();
    let mut i: usize = 0;
    while i < n
        invariant
            i <= n,
            n == bytes@.len(),
            n <= isize::MAX,
            lexes(bytes@) == (lex_from(bytes@, i as int) is Some),
        decreases n - i,
    {
        match lex_next(bytes, i) {
            None => {
                return false;
            },
            Some(next) => {
                if next <= i || next > n {
                    return false;
                }
                i = next;
            },
        }
    }
    true
}

/// Whether a text, its line endings normalized, lexes; the library's parsing entry points
/// ask for this.
pub fn text_lexes(text: &str) -> (r: bool)
    ensures
        r == (lexes(crate::formatting::crlf_to_lf(utf8(text@), 0)) && crate::formatting::crlf_to_lf(
            utf8(text@),
            0,
        ).len() <= isize::MAX),
{
    let normalized = crate::parser::fallback::normalize_source(text);
    let b = normalized.as_str().as_bytes();
    if b.len() > isize::MAX as usize {
        return false;
    }
    lexes_bytes(b)
}

} // verus!
