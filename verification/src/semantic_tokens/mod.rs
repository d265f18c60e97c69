//! Semantic tokens: the tokens of a document, sorted, each once, and encoded relative to the
//! token before, with the legend of their types and modifiers.
pub mod collect;
pub mod inline;
pub mod scan;

use vstd::prelude::*;

use crate::position::{char_units_at, line_slice_ok, offset_position, position_offset, step_at, utf16_units, LineIndex, Position};
use crate::semantic_tokens::collect::{collect_raw, raw_tokens};
use crate::semantic_tokens::inline::RawToken;
use crate::syntax::FileId;
use crate::text::{char_boundary, utf8};

verus! {

/// The token type names, indexed by type.
pub open spec fn token_type_names() -> Seq<Seq<char>> {
    seq![
        "keyword"@,
        "property"@,
        "string"@,
        "number"@,
        "comment"@,
        "operator"@,
        "decorator"@,
        "variable"@,
        "macro"@,
        "boolean"@,
        "null"@,
        "lua"@,
    ]
}

/// The modifier names, indexed by bit.
pub open spec fn token_modifier_names() -> Seq<Seq<char>> {
    seq!["declaration"@, "block"@, "import"@, "include"@, "deprecated"@, "invalid"@]
}

/// The names a client reads token types and modifier bits by.
#[derive(Debug, Clone, PartialEq, Eq)]
pub struct SemanticTokensLegend {
    pub token_types: Vec<String>,
    pub token_modifiers: Vec<String>,
}

pub open spec fn names_view(v: Seq<String>) -> Seq<Seq<char>> {
    v.map_values(|s: String| s@)
}

fn push_name(v: &mut Vec<String>, s: &str)
    ensures
        names_view(final(v)@) == names_view(old(v)@).push(s@),
{
    let ghost before = names_view(v@);
    v.push(s.to_owned());
    assert(names_view(v@) =~= before.push(s@));
}

/// The legend: the token types and the modifiers, in the order of their numbers and bits.
pub fn legend() -> (l: SemanticTokensLegend)
    ensures
        names_view(l.token_types@) == token_type_names(),
        names_view(l.token_modifiers@) == token_modifier_names(),
{
    let mut types: Vec<String> = Vec::new();
    assert(names_view(types@) =~= Seq::<Seq<char>>::empty());
    push_name(&mut types, "keyword");
    push_name(&mut types, "property");
    push_name(&mut types, "string");
    push_name(&mut types, "number");
    push_name(&mut types, "comment");
    push_name(&mut types, "operator");
    push_name(&mut types, "decorator");
    push_name(&mut types, "variable");
    push_name(&mut types, "macro");
    push_name(&mut types, "boolean");
    push_name(&mut types, "null");
    push_name(&mut types, "lua");
    let mut modifiers: Vec<String> = Vec::new();
    assert(names_view(modifiers@) =~= Seq::<Seq<char>>::empty());
    push_name(&mut modifiers, "declaration");
    push_name(&mut modifiers, "block");
    push_name(&mut modifiers, "import");
    push_name(&mut modifiers, "include");
    push_name(&mut modifiers, "deprecated");
    push_name(&mut modifiers, "invalid");
    assert(names_view(types@) =~= token_type_names());
    assert(names_view(modifiers@) =~= token_modifier_names());
    SemanticTokensLegend { token_types: types, token_modifiers: modifiers }
}

/// Tokens ordered by start, end, type and modifiers in turn.
pub open spec fn tok_lt(a: RawToken, b: RawToken) -> bool {
    ||| a.start < b.start
    ||| (a.start == b.start && a.end < b.end)
    ||| (a.start == b.start && a.end == b.end && a.token_type < b.token_type)
    ||| (a.start == b.start && a.end == b.end && a.token_type == b.token_type && a.modifiers < b.modifiers)
}

pub open spec fn toks_sorted(v: Seq<RawToken>) -> bool {
    forall|i: int, j: int| 0 <= i < j < v.len() ==> tok_lt(#[trigger] v[i], #[trigger] v[j])
}

fn tok_lt_exec(a: RawToken, b: RawToken) -> (r: bool)
    ensures
        r == tok_lt(a, b),
{
    a.start < b.start || (a.start == b.start && a.end < b.end) || (a.start == b.start && a.end == b.end
        && a.token_type < b.token_type) || (a.start == b.start && a.end == b.end && a.token_type == b.token_type
        && a.modifiers < b.modifiers)
}

fn insert_token(v: &mut Vec<RawToken>, x: RawToken)
    requires
        toks_sorted(old(v)@),
    ensures
        toks_sorted(final(v)@),
        final(v)@.to_set() == old(v)@.to_set().insert(x),
{
    let ghost before = v@;
    let mut i: usize = 0;
    while i < v.len() && tok_lt_exec(v[i], x)
        invariant
            i <= v@.len(),
            v@ == before,
            toks_sorted(before),
            forall|k: int| 0 <= k < i ==> tok_lt(#[trigger] before[k], x),
        decreases v@.len() - i,
    {
        i = i + 1;
    }
    if i < v.len() && v[i] == x {
        assert(before.to_set().insert(x) =~= before.to_set());
        return;
    }
    v.insert(i, x);
    let ghost after = v@;
    assert(after =~= before.insert(i as int, x));
    assert forall|a: int, b: int| 0 <= a < b < after.len() implies tok_lt(#[trigger] after[a], #[trigger] after[b]) by {
        if b < i {
        } else if a < i && b == i {
        } else if a < i && b > i {
            assert(after[b] == before[b - 1]);
        } else if a == i {
            assert(after[b] == before[b - 1]);
            if b - 1 > i {
                assert(tok_lt(before[i as int], before[b - 1]));
            }
        } else {
            assert(after[a] == before[a - 1]);
            assert(after[b] == before[b - 1]);
        }
    }
    assert forall|y: RawToken| after.to_set().contains(y) <==> before.to_set().insert(x).contains(y) by {
        if after.to_set().contains(y) {
            let k = choose|k: int| 0 <= k < after.len() && after[k] == y;
            if k < i {
                assert(before[k] == y);
            } else if k > i {
                assert(before[k - 1] == y);
            }
        }
        if before.to_set().contains(y) {
            let k = choose|k: int| 0 <= k < before.len() && before[k] == y;
            if k < i {
                assert(after[k] == y);
            } else {
                assert(after[k + 1] == y);
            }
        }
        if y == x {
            assert(after[i as int] == y);
        }
    }
    assert(after.to_set() =~= before.to_set().insert(x));
}

proof fn lemma_push_set(s: Seq<RawToken>, x: RawToken)
    ensures
        s.push(x).to_set() == s.to_set().insert(x),
{
    let t = s.push(x);
    assert forall|y: RawToken| t.to_set().contains(y) <==> s.to_set().insert(x).contains(y) by {
        if t.to_set().contains(y) {
            let k = choose|k: int| 0 <= k < t.len() && t[k] == y;
            if k < s.len() {
                assert(s[k] == y);
            }
        }
        if s.to_set().contains(y) {
            let k = choose|k: int| 0 <= k < s.len() && s[k] == y;
            assert(t[k] == y);
        }
        if y == x {
            assert(t[s.len() as int] == y);
        }
    }
    assert(t.to_set() =~= s.to_set().insert(x));
}

fn sort_dedup(raw: &Vec<RawToken>) -> (r: Vec<RawToken>)
    ensures
        toks_sorted(r@),
        r@.to_set() == raw@.to_set(),
{
    let mut out: Vec<RawToken> = Vec::new();
    let mut k: usize = 0;
    assert(out@.to_set() =~= raw@.take(0).to_set());
    while k < raw.len()
        invariant
            k <= raw@.len(),
            toks_sorted(out@),
            out@.to_set() == raw@.take(k as int).to_set(),
        decreases raw@.len() - k,
    {
        insert_token(&mut out, raw[k]);
        assert(raw@.take(k + 1) =~= raw@.take(k as int).push(raw@[k as int]));
        proof {
            lemma_push_set(raw@.take(k as int), raw@[k as int]);
        }
        k = k + 1;
    }
    assert(raw@.take(raw@.len() as int) =~= raw@);
    out
}

/// A token as the protocol sends it: relative to the token before.
#[derive(Debug, Clone, Copy, PartialEq, Eq, Structural)]
pub struct SemanticToken {
    pub delta_line: u32,
    pub delta_start: u32,
    pub length: u32,
    pub token_type: u32,
    pub token_modifiers_bitset: u32,
}

#[derive(Debug, Clone, PartialEq, Eq)]
pub struct SemanticTokens {
    pub result_id: Option<String>,
    pub data: Vec<SemanticToken>,
}

/// A text can be tokenized: no line is cut inside a character, and every token starts and
/// ends at a position of the text.
pub open spec fn tokenize_ok(b: Seq<u8>) -> bool {
    &&& raw_tokens(b).1
    &&& forall|k: int| 0 <= k < raw_tokens(b).0.len() ==> {
        let t = #[trigger] raw_tokens(b).0[k];
        offset_position(b, t.start) is Ok && offset_position(b, t.end) is Ok
    }
}

pub open spec fn pos_of(b: Seq<u8>, offset: usize) -> Position {
    offset_position(b, offset)->Ok_0
}

/// The `k`-th encoded token of the sorted tokens `s`.
pub open spec fn encoded(b: Seq<u8>, s: Seq<RawToken>, k: int) -> SemanticToken {
    let p = pos_of(b, s[k].start);
    let dl: u32 = if k == 0 { p.line } else { vstd::wrapping::u32_specs::wrapping_sub(p.line, pos_of(b, s[k - 1].start).line) };
    let ds: u32 = if k == 0 || dl > 0 {
        p.character
    } else {
        vstd::wrapping::u32_specs::wrapping_sub(p.character, pos_of(b, s[k - 1].start).character)
    };
    SemanticToken {
        delta_line: dl,
        delta_start: ds,
        length: utf16_units(b, s[k].start as int, s[k].end as int) as u32,
        token_type: s[k].token_type,
        token_modifiers_bitset: s[k].modifiers,
    }
}

/// The tokens of a text: found line by line, then sorted by position, type and modifiers with
/// each token once, and encoded with line and column deltas and UTF-16 lengths.
pub fn tokenize(file_id: FileId, name: &str, text: &str) -> (r: SemanticTokens)
    requires
        utf8(text@).len() < usize::MAX - 2,
        tokenize_ok(utf8(text@)),
    ensures
        r.result_id is None,
        ({
            let b = utf8(text@);
            exists|s: Seq<RawToken>| {
                &&& toks_sorted(s)
                &&& s.to_set() == raw_tokens(b).0.to_set()
                &&& r.data@.len() == s.len()
                &&& forall|k: int| 0 <= k < s.len() ==> #[trigger] r.data@[k] == encoded(b, s, k)
            }
        }),
{
    let b = text.as_bytes();
    let index = LineIndex::new(text);
    let (raw, _) = collect_raw(b);
    let sorted = sort_dedup(&raw);
    let ghost s = sorted@;
    let mut data: Vec<SemanticToken> = Vec::new();
    let mut prev_line: u32 = 0;
    let mut prev_start: u32 = 0;
    let mut k: usize = 0;
    while k < sorted.len()
        invariant
            k <= sorted@.len(),
            s == sorted@,
            b@ == utf8(text@),
            index.indexes(b@),
            tokenize_ok(b@),
            toks_sorted(s),
            s.to_set() == raw_tokens(b@).0.to_set(),
            data@.len() == k,
            forall|j: int| 0 <= j < k ==> #[trigger] data@[j] == encoded(b@, s, j),
            k > 0 ==> prev_line == pos_of(b@, s[k - 1].start).line && prev_start == pos_of(b@, s[k - 1].start).character,
        decreases sorted@.len() - k,
    {
        let t = sorted[k];
        proof {
            assert(s.to_set().contains(s[k as int]));
            assert(raw_tokens(b@).0.to_set().contains(t));
            let m = choose|m: int| 0 <= m < raw_tokens(b@).0.len() && raw_tokens(b@).0[m] == t;
            assert(raw_tokens(b@).0[m] == t);
            assert(offset_position(b@, t.start) is Ok);
        }
        let p = match index.offset_to_position(text, t.start) {
            Ok(p) => p,
            Err(_) => Position { line: 0, character: 0 },
        };
        let dl: u32 = if k == 0 { p.line } else { p.line.wrapping_sub(prev_line) };
        let ds: u32 = if k == 0 || dl > 0 { p.character } else { p.character.wrapping_sub(prev_start) };
        proof {
            if offset_position(b@, t.end) is Ok {
                assert(t.end <= b@.len());
            }
        }
        let units = crate::position::count_utf16_units(b, t.start.min(t.end), t.end);
        let length = units as u32;
        assert(units == utf16_units(b@, t.start as int, t.end as int));
        assert(p == pos_of(b@, t.start));
        data.push(SemanticToken {
            delta_line: dl,
            delta_start: ds,
            length,
            token_type: t.token_type,
            token_modifiers_bitset: t.modifiers,
        });
        prev_line = p.line;
        prev_start = p.character;
        k = k + 1;
    }
    SemanticTokens { result_id: None, data }
}

/// Whether a text can be tokenized (see `tokenize_ok`).
pub fn tokenize_supported(text: &str) -> (r: bool)
    requires
        utf8(text@).len() < usize::MAX - 2,
    ensures
        r == tokenize_ok(utf8(text@)),
{
    let b = text.as_bytes();
    let index = LineIndex::new(text);
    let (raw, ok) = collect_raw(b);
    if !ok {
        return false;
    }
    let mut k: usize = 0;
    while k < raw.len()
        invariant
            k <= raw@.len(),
            raw@ == raw_tokens(b@).0,
            b@ == utf8(text@),
            index.indexes(b@),
            forall|j: int| 0 <= j < k ==> {
                let t = #[trigger] raw@[j];
                offset_position(b@, t.start) is Ok && offset_position(b@, t.end) is Ok
            },
        decreases raw@.len() - k,
    {
        let t = raw[k];
        if index.offset_to_position(text, t.start).is_err() || index.offset_to_position(text, t.end).is_err() {
            assert(raw@[k as int] == t);
            return false;
        }
        k = k + 1;
    }
    true
}


/// One encoded token with its absolute place resolved: the deltas and length as sent, the
/// type's and modifiers' names, and the text it covers.
#[derive(Debug, Clone, PartialEq, Eq)]
pub struct EncodedTokenDebug {
    pub delta_line: u32,
    pub delta_start: u32,
    pub length: u32,
    pub token_type: String,
    pub modifiers: Vec<String>,
    pub lexeme: String,
}

/// The absolute (line, column) of token `k`, adding up the deltas from the first token.
pub open spec fn token_place(data: Seq<SemanticToken>, k: int) -> (int, int)
    decreases k + 1,
{
    if k < 0 {
        (0, 0)
    } else {
        let before = token_place(data, k - 1);
        let t = data[k];
        (before.0 + t.delta_line, if t.delta_line == 0 { before.1 + t.delta_start } else { t.delta_start as int })
    }
}

/// The offset reached from `i` after characters worth at least `length` UTF-16 units, or the
/// end of the text.
pub open spec fn units_end(b: Seq<u8>, i: int, acc: int, length: int) -> int
    decreases b.len() - i,
{
    if i >= b.len() || acc >= length || i < 0 {
        i
    } else {
        units_end(b, i + step_at(b, i, b.len() as int), acc + char_units_at(b, i, b.len() as int), length)
    }
}

/// The names of the modifier bits among the first `k` that are set.
pub open spec fn modifier_names_of(bits: u32, k: nat) -> Seq<Seq<char>>
    decreases k,
{
    if k == 0 {
        seq![]
    } else {
        modifier_names_of(bits, (k - 1) as nat) + if bits & (1u32 << ((k - 1) as u32)) != 0u32 {
            seq![token_modifier_names()[k - 1]]
        } else {
            seq![]
        }
    }
}

/// What `str::get` gives for `b[lo..hi]`: the bytes when both ends are character boundaries
/// in order, nothing otherwise.
pub open spec fn get_or_empty(b: Seq<u8>, lo: int, hi: int) -> Seq<u8> {
    if lo <= hi <= b.len() && char_boundary(b, lo) && char_boundary(b, hi) {
        b.subrange(lo, hi)
    } else {
        seq![]
    }
}

/// The tokens can be rendered: every place fits in `u32`, names a position of the text, and
/// every type is a known one.
pub open spec fn renderable(b: Seq<u8>, data: Seq<SemanticToken>) -> bool {
    forall|k: int| 0 <= k < data.len() ==> {
        let p = #[trigger] token_place(data, k);
        &&& p.0 <= u32::MAX && p.1 <= u32::MAX
        &&& line_slice_ok(b, p.0)
        &&& position_offset(b, Position { line: p.0 as u32, character: p.1 as u32 }) is Ok
        &&& data[k].token_type < 12
    }
}

pub open spec fn rendered_view(r: EncodedTokenDebug) -> (u32, u32, u32, Seq<char>, Seq<Seq<char>>, Seq<u8>) {
    (r.delta_line, r.delta_start, r.length, r.token_type@, names_view(r.modifiers@), utf8(r.lexeme@))
}

/// What token `k` renders to.
pub open spec fn rendered_token(b: Seq<u8>, data: Seq<SemanticToken>, k: int) -> (u32, u32, u32, Seq<char>, Seq<Seq<char>>, Seq<u8>) {
    let p = token_place(data, k);
    let start = position_offset(b, Position { line: p.0 as u32, character: p.1 as u32 })->Ok_0 as int;
    let end = units_end(b, start, 0, data[k].length as int);
    (
        data[k].delta_line,
        data[k].delta_start,
        data[k].length,
        token_type_names()[data[k].token_type as int],
        modifier_names_of(data[k].token_modifiers_bitset, 6),
        get_or_empty(b, start, end),
    )
}

fn token_type_name(t: u32) -> (s: &'static str)
    requires
        t < 12,
    ensures
        s@ == token_type_names()[t as int],
{
    match t {
        0 => "keyword",
        1 => "property",
        2 => "string",
        3 => "number",
        4 => "comment",
        5 => "operator",
        6 => "decorator",
        7 => "variable",
        8 => "macro",
        9 => "boolean",
        10 => "null",
        _ => "lua",
    }
}

fn modifier_name(k: u32) -> (s: &'static str)
    requires
        k < 6,
    ensures
        s@ == token_modifier_names()[k as int],
{
    match k {
        0 => "declaration",
        1 => "block",
        2 => "import",
        3 => "include",
        4 => "deprecated",
        _ => "invalid",
    }
}

fn modifier_names(bits: u32) -> (v: Vec<String>)
    ensures
        names_view(v@) == modifier_names_of(bits, 6),
{
    let mut v: Vec<String> = Vec::new();
    let mut k: u32 = 0;
    while k < 6
        invariant
            k <= 6,
            names_view(v@) == modifier_names_of(bits, k as nat),
        decreases 6 - k,
    {
        let ghost before = names_view(v@);
        if bits & (1u32 << k) != 0 {
            v.push(modifier_name(k).to_owned());
            assert(names_view(v@) =~= before.push(token_modifier_names()[k as int]));
        }
        proof {
            assert(((k + 1) as nat - 1) as u32 == k);
        }
        assert(names_view(v@) =~= modifier_names_of(bits, (k + 1) as nat));
        k = k + 1;
    }
    v
}

fn units_end_exec(b: &[u8], start: usize, length: u32) -> (r: usize)
    ensures
        r == units_end(b@, start as int, 0, length as int),
{
    if start >= b.len() {
        return start;
    }
    let mut i = start;
    let mut acc: u64 = 0;
    while i < b.len() && acc < length as u64
        invariant
            start <= i <= b@.len(),
            acc <= length + 8,
            units_end(b@, i as int, acc as int, length as int) == units_end(b@, start as int, 0, length as int),
        decreases b@.len() - i,
    {
        let c = b[i];
        let w: usize = if c < 0x80 { 1 } else if c < 0xe0 { 2 } else if c < 0xf0 { 3 } else { 4 };
        let step: usize = if w <= b.len() - i { w } else { b.len() - i };
        let u = crate::position::count_utf16_units(b, i, i + step);
        assert(step == step_at(b@, i as int, b@.len() as int));
        assert(u == char_units_at(b@, i as int, b@.len() as int));
        acc = acc + u as u64;
        i = i + step;
    }
    i
}

/// The encoded tokens of a text read back: each token's deltas and length, its type's and
/// modifiers' names, and the text from its place over `length` UTF-16 units.
pub fn debug_render(text: &str, tokens: &SemanticTokens) -> (r: Vec<EncodedTokenDebug>)
    requires
        renderable(utf8(text@), tokens.data@),
    ensures
        r@.len() == tokens.data@.len(),
        forall|k: int| 0 <= k < r@.len() ==> rendered_view(#[trigger] r@[k]) == rendered_token(utf8(text@), tokens.data@, k),
{
    let b = text.as_bytes();
    let index = LineIndex::new(text);
    let mut rendered: Vec<EncodedTokenDebug> = Vec::new();
    let mut line: u32 = 0;
    let mut start: u32 = 0;
    let mut k: usize = 0;
    while k < tokens.data.len()
        invariant
            k <= tokens.data@.len(),
            b@ == utf8(text@),
            index.indexes(b@),
            renderable(b@, tokens.data@),
            rendered@.len() == k,
            (line as int, start as int) == token_place(tokens.data@, k as int - 1),
            forall|j: int| 0 <= j < k ==> rendered_view(#[trigger] rendered@[j]) == rendered_token(b@, tokens.data@, j),
        decreases tokens.data@.len() - k,
    {
        let token = tokens.data[k];
        proof {
            let p = token_place(tokens.data@, k as int);
            assert(p.0 <= u32::MAX && p.1 <= u32::MAX);
        }
        line = line + token.delta_line;
        if token.delta_line == 0 {
            start = start + token.delta_start;
        } else {
            start = token.delta_start;
        }
        let position = Position { line, character: start };
        let start_offset = match index.position_to_offset(text, position) {
            Ok(o) => o,
            Err(_) => 0,
        };
        let end_offset = units_end_exec(b, start_offset, token.length);
        let lexeme = if start_offset <= end_offset && crate::syntax::is_boundary(b, start_offset)
            && crate::syntax::is_boundary(b, end_offset) {
            crate::syntax::str_slice(text, start_offset, end_offset).to_owned()
        } else {
            String::new()
        };
        let item = EncodedTokenDebug {
            delta_line: token.delta_line,
            delta_start: token.delta_start,
            length: token.length,
            token_type: token_type_name(token.token_type).to_owned(),
            modifiers: modifier_names(token.token_modifiers_bitset),
            lexeme,
        };
        rendered.push(item);
        k = k + 1;
    }
    rendered
}

} // verus!
