//! Byte scanners that the tokenizer steps with.
use vstd::prelude::*;

verus! {

pub open spec fn is_space_or_tab(c: u8) -> bool {
    c == 0x20 || c == 0x09
}

/// `char::is_ascii_whitespace`: space, tab, line feed, form feed, carriage return.
pub open spec fn is_ascii_ws_byte(c: u8) -> bool {
    c == 0x20 || c == 0x09 || c == 0x0a || c == 0x0c || c == 0x0d
}

pub open spec fn is_digit(c: u8) -> bool {
    0x30 <= c <= 0x39
}

/// Letters, digits, `_`, `-` and `?`.
pub open spec fn is_word(c: u8) -> bool {
    (0x30 <= c <= 0x39) || (0x41 <= c <= 0x5a) || (0x61 <= c <= 0x7a) || c == 0x5f || c == 0x2d || c == 0x3f
}

/// What ends a plain word: ASCII white space and `# : [ ] { } , + * / % =`.
pub open spec fn ends_word_like(c: u8) -> bool {
    is_ascii_ws_byte(c) || c == 0x23 || c == 0x3a || c == 0x5b || c == 0x5d || c == 0x7b || c == 0x7d || c == 0x2c
        || c == 0x2b || c == 0x2a || c == 0x2f || c == 0x25 || c == 0x3d
}

/// Past the spaces and tabs from `s`, not beyond `e`.
pub open spec fn skip_spaces(b: Seq<u8>, s: int, e: int) -> int
    decreases e - s,
{
    if s < e && s < b.len() && is_space_or_tab(b[s]) {
        skip_spaces(b, s + 1, e)
    } else {
        s
    }
}

/// Back over ASCII white space before `e`, not before `s`.
pub open spec fn trim_end_ws(b: Seq<u8>, s: int, e: int) -> int
    decreases e - s,
{
    if e > s && e - 1 < b.len() && is_ascii_ws_byte(b[e - 1]) {
        trim_end_ws(b, s, e - 1)
    } else {
        e
    }
}

/// Past the word bytes from `s`.
pub open spec fn word_end(b: Seq<u8>, s: int, e: int) -> int
    decreases e - s,
{
    if s < e && s < b.len() && is_word(b[s]) {
        word_end(b, s + 1, e)
    } else {
        s
    }
}

/// Past the bytes of a plain word from `s`.
pub open spec fn word_like_end(b: Seq<u8>, s: int, e: int) -> int
    decreases e - s,
{
    if s < e && s < b.len() && !ends_word_like(b[s]) {
        word_like_end(b, s + 1, e)
    } else {
        s
    }
}

/// Past the closing quote `q` of a string whose body starts at `c`; a backslash skips the
/// byte after it; the end `e` when unclosed.
pub open spec fn quoted_from(b: Seq<u8>, c: int, e: int, q: u8) -> int
    decreases e - c,
{
    if c >= e || c < 0 || c >= b.len() {
        e
    } else if b[c] == 0x5c {
        quoted_from(b, if c + 2 < e { c + 2 } else { e }, e, q)
    } else if b[c] == q {
        c + 1
    } else {
        quoted_from(b, c + 1, e, q)
    }
}

/// Past the quoted string that starts at `s`.
pub open spec fn scan_quoted(b: Seq<u8>, s: int, e: int) -> int {
    quoted_from(b, s + 1, e, b[s])
}

/// Past the brace that closes nesting depth `d`, from `c`; the end `e` when unclosed.
pub open spec fn braced_from(b: Seq<u8>, c: int, e: int, d: nat) -> int
    decreases e - c,
{
    if c >= e || c < 0 || c >= b.len() {
        e
    } else if b[c] == 0x7b {
        braced_from(b, c + 1, e, d + 1)
    } else if b[c] == 0x7d {
        if d == 0 || d == 1 {
            c + 1
        } else {
            braced_from(b, c + 1, e, (d - 1) as nat)
        }
    } else {
        braced_from(b, c + 1, e, d)
    }
}

/// Past digits, dots and underscores from `s` (after a leading `-`).
pub open spec fn number_from(b: Seq<u8>, c: int, e: int) -> int
    decreases e - c,
{
    if c < e && c < b.len() && (is_digit(b[c]) || b[c] == 0x2e || b[c] == 0x5f) {
        number_from(b, c + 1, e)
    } else {
        c
    }
}

pub open spec fn scan_number(b: Seq<u8>, s: int, e: int) -> int {
    number_from(b, if b[s] == 0x2d { s + 1 } else { s }, e)
}

/// The key and colon of a mapping line from `c` on, with `quote` the open quote if any:
/// the first `:` outside quotes and before a `#` whose key is not blank.
pub open spec fn colon_from(b: Seq<u8>, s: int, c: int, e: int, quote: Option<u8>) -> Option<(int, int, int)>
    decreases e - c,
{
    if c >= e || c < 0 || c >= b.len() {
        None
    } else {
        let ch = b[c];
        match quote {
            Some(q) => colon_from(b, s, c + 1, e, if ch == q { None } else { Some(q) }),
            None => if ch == 0x22 || ch == 0x27 {
                colon_from(b, s, c + 1, e, Some(ch))
            } else if ch == 0x23 {
                None
            } else if ch == 0x3a && trim_end_ws(b, s, c) > s {
                Some((s, trim_end_ws(b, s, c), c))
            } else {
                colon_from(b, s, c + 1, e, None)
            },
        }
    }
}

pub open spec fn find_mapping_colon(b: Seq<u8>, s: int, e: int) -> Option<(int, int, int)> {
    colon_from(b, s, s, e, None)
}

/// Where a directive's target ends: past a quoted string, else at white space or `#`.
pub open spec fn value_end_from(b: Seq<u8>, c: int, e: int) -> int
    decreases e - c,
{
    if c < e && c < b.len() && !is_ascii_ws_byte(b[c]) && b[c] != 0x23 {
        value_end_from(b, c + 1, e)
    } else {
        c
    }
}

pub open spec fn scan_value_end(b: Seq<u8>, s: int, e: int) -> int {
    if s >= e {
        s
    } else if b[s] == 0x22 || b[s] == 0x27 {
        scan_quoted(b, s, e)
    } else {
        value_end_from(b, s, e)
    }
}

// ---------------------------------------------------------------------------
// Executable
pub fn skip_spaces_exec(b: &[u8], s: usize, e: usize) -> (r: usize)
    requires
        s <= e <= b@.len(),
    ensures
        r == skip_spaces(b@, s as int, e as int),
        s <= r <= e,
{
    let mut i = s;
    while i < e && (b[i] == 0x20 || b[i] == 0x09)
        invariant
            s <= i <= e <= b@.len(),
            skip_spaces(b@, i as int, e as int) == skip_spaces(b@, s as int, e as int),
        decreases e - i,
    {
        i = i + 1;
    }
    i
}

pub fn trim_end_ws_exec(b: &[u8], s: usize, e: usize) -> (r: usize)
    requires
        s <= e <= b@.len(),
    ensures
        r == trim_end_ws(b@, s as int, e as int),
        s <= r <= e,
{
    let mut j = e;
    while j > s && (b[j - 1] == 0x20 || b[j - 1] == 0x09 || b[j - 1] == 0x0a || b[j - 1] == 0x0c || b[j - 1]
        == 0x0d)
        invariant
            s <= j <= e <= b@.len(),
            trim_end_ws(b@, s as int, j as int) == trim_end_ws(b@, s as int, e as int),
        decreases j,
    {
        j = j - 1;
    }
    j
}

pub fn word_end_exec(b: &[u8], s: usize, e: usize) -> (r: usize)
    requires
        s <= e <= b@.len(),
    ensures
        r == word_end(b@, s as int, e as int),
        s <= r <= e,
{
    let mut i = s;
    while i < e && ((0x30 <= b[i] && b[i] <= 0x39) || (0x41 <= b[i] && b[i] <= 0x5a) || (0x61 <= b[i] && b[i]
        <= 0x7a) || b[i] == 0x5f || b[i] == 0x2d || b[i] == 0x3f)
        invariant
            s <= i <= e <= b@.len(),
            word_end(b@, i as int, e as int) == word_end(b@, s as int, e as int),
        decreases e - i,
    {
        i = i + 1;
    }
    i
}

fn ends_word_like_exec(c: u8) -> (r: bool)
    ensures
        r == ends_word_like(c),
{
    c == 0x20 || c == 0x09 || c == 0x0a || c == 0x0c || c == 0x0d || c == 0x23 || c == 0x3a || c == 0x5b || c
        == 0x5d || c == 0x7b || c == 0x7d || c == 0x2c || c == 0x2b || c == 0x2a || c == 0x2f || c == 0x25 || c
        == 0x3d
}

pub fn word_like_end_exec(b: &[u8], s: usize, e: usize) -> (r: usize)
    requires
        s <= e <= b@.len(),
    ensures
        r == word_like_end(b@, s as int, e as int),
        s <= r <= e,
{
    let mut i = s;
    while i < e && !ends_word_like_exec(b[i])
        invariant
            s <= i <= e <= b@.len(),
            word_like_end(b@, i as int, e as int) == word_like_end(b@, s as int, e as int),
        decreases e - i,
    {
        i = i + 1;
    }
    i
}

pub fn scan_quoted_exec(b: &[u8], s: usize, e: usize) -> (r: usize)
    requires
        s < e <= b@.len(),
    ensures
        r == scan_quoted(b@, s as int, e as int),
        s < r <= e,
{
    let q = b[s];
    let mut c = s + 1;
    while c < e
        invariant
            s < c <= e <= b@.len(),
            q == b@[s as int],
            quoted_from(b@, c as int, e as int, q) == quoted_from(b@, s + 1, e as int, q),
        decreases e - c,
    {
        if b[c] == 0x5c {
            c = if e - c > 2 { c + 2 } else { e };
        } else if b[c] == q {
            return c + 1;
        } else {
            c = c + 1;
        }
    }
    e
}

pub fn scan_braced_exec(b: &[u8], s: usize, e: usize) -> (r: usize)
    requires
        s <= e <= b@.len(),
    ensures
        r == braced_from(b@, s as int, e as int, 0),
        s <= r <= e,
{
    let mut c = s;
    let mut d: usize = 0;
    while c < e
        invariant
            s <= c <= e <= b@.len(),
            d <= c - s,
            braced_from(b@, c as int, e as int, d as nat) == braced_from(b@, s as int, e as int, 0),
        decreases e - c,
    {
        if b[c] == 0x7b {
            d = d + 1;
        } else if b[c] == 0x7d {
            if d == 0 || d == 1 {
                return c + 1;
            }
            d = d - 1;
        }
        c = c + 1;
    }
    e
}

pub fn scan_number_exec(b: &[u8], s: usize, e: usize) -> (r: usize)
    requires
        s < e <= b@.len(),
    ensures
        r == scan_number(b@, s as int, e as int),
        s <= r <= e,
{
    let mut c = if b[s] == 0x2d { s + 1 } else { s };
    let ghost c0: int = c as int;
    while c < e && ((0x30 <= b[c] && b[c] <= 0x39) || b[c] == 0x2e || b[c] == 0x5f)
        invariant
            s <= c <= e <= b@.len(),
            c0 == (if b@[s as int] == 0x2d { s + 1 } else { s as int }),
            number_from(b@, c as int, e as int) == number_from(b@, c0, e as int),
        decreases e - c,
    {
        c = c + 1;
    }
    c
}

pub fn find_mapping_colon_exec(b: &[u8], s: usize, e: usize) -> (r: Option<(usize, usize, usize)>)
    requires
        s <= e <= b@.len(),
    ensures
        match find_mapping_colon(b@, s as int, e as int) {
            Some((x, y, z)) => r == Some((x as usize, y as usize, z as usize)) && s <= y <= z < e && x == s,
            None => r is None,
        },
{
    let mut c = s;
    let mut quote: Option<u8> = None;
    while c < e
        invariant
            s <= c <= e <= b@.len(),
            colon_from(b@, s as int, c as int, e as int, quote) == find_mapping_colon(b@, s as int, e as int),
        decreases e - c,
    {
        let ch = b[c];
        match quote {
            Some(q) => {
                if ch == q {
                    quote = None;
                }
            },
            None => {
                if ch == 0x22 || ch == 0x27 {
                    quote = Some(ch);
                } else if ch == 0x23 {
                    return None;
                } else if ch == 0x3a {
                    let ke = trim_end_ws_exec(b, s, c);
                    if ke > s {
                        return Some((s, ke, c));
                    }
                }
            },
        }
        c = c + 1;
    }
    None
}

pub fn scan_value_end_exec(b: &[u8], s: usize, e: usize) -> (r: usize)
    requires
        s <= e <= b@.len(),
    ensures
        r == scan_value_end(b@, s as int, e as int),
        s <= r <= e,
{
    if s >= e {
        return s;
    }
    if b[s] == 0x22 || b[s] == 0x27 {
        return scan_quoted_exec(b, s, e);
    }
    let mut c = s;
    while c < e && !(b[c] == 0x20 || b[c] == 0x09 || b[c] == 0x0a || b[c] == 0x0c || b[c] == 0x0d) && b[c] != 0x23
        invariant
            s <= c <= e <= b@.len(),
            value_end_from(b@, c as int, e as int) == value_end_from(b@, s as int, e as int),
        decreases e - c,
    {
        c = c + 1;
    }
    c
}

} // verus!
