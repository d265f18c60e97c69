//! The markdown that hovers show.
use vstd::prelude::*;
use vstd::utf8::valid_utf8;

use crate::ast::ScalarKind;
use crate::text::{bytes_to_string, lemma_str_valid, lemma_utf8_injective, push_text, str_eq, utf8};

verus! {

broadcast use vstd::utf8::valid_utf8_concat;

pub open spec fn lit(s: &str) -> Seq<u8> {
    utf8(s@)
}

/// A directive's documentation: its name, summary, example and an excerpt of the spec.
pub open spec fn directive_markdown(name: Seq<u8>) -> Option<Seq<u8>> {
    if name == lit("@import") {
        Some(lit(IMPORT_DOC))
    } else if name == lit("@include") {
        Some(lit(INCLUDE_DOC))
    } else if name == lit("@use") {
        Some(lit(USE_DOC))
    } else if name == lit("@profile") {
        Some(lit(PROFILE_DOC))
    } else if name == lit("@luma") {
        Some(lit(LUMA_DOC))
    } else {
        None
    }
}

pub const IMPORT_DOC: &'static str = "**Directive:** `@import`\n\nImport a local module and optionally bind it to an alias.\n\n```luma\n@import \"./shared.luma\" as shared\n```\n\nSpec excerpt: Relative paths and `file:` URIs are allowed; non-`file:` schemes, absolute paths, and parent traversal are rejected by default in parse-only mode.\n\n**Static node type:** `directive`";

pub const INCLUDE_DOC: &'static str = "**Directive:** `@include`\n\nInclude a local document without evaluating Lua.\n\n```luma\n@include \"./partials/base.luma\"\n```\n\nSpec excerpt: Includes stay root-bounded and parse-only unless a future evaluation mode is explicitly enabled.\n\n**Static node type:** `directive`";

pub const USE_DOC: &'static str = "**Directive:** `@use`\n\nBind a local module path to a reusable alias.\n\n```luma\n@use \"./modules/network.luma\" as network\n```\n\nSpec excerpt: Module aliases are resolved from static import syntax; hover does not execute module code.\n\n**Static node type:** `directive`";

pub const PROFILE_DOC: &'static str = "**Directive:** `@profile`\n\nSelect the active profile name for the document.\n\n```luma\n@profile dev\n```\n\nSpec excerpt: Profiles are treated as static identifiers in parse-only mode.\n\n**Static node type:** `directive`";

pub const LUMA_DOC: &'static str = "**Directive:** `@luma`\n\nDeclare the Luma language version used by the file.\n\n```luma\n@luma 1\n```\n\nSpec excerpt: Version declarations are parsed statically and never trigger evaluation.\n\n**Static node type:** `directive`";

fn name_is(name: &str, word: &str) -> (r: bool)
    ensures
        r == (utf8(name@) == lit(word)),
{
    proof {
        if utf8(name@) == utf8(word@) {
            lemma_utf8_injective(name@, word@);
        }
    }
    str_eq(name, word)
}

pub fn directive_markdown_exec(name: &str) -> (r: Option<&'static str>)
    ensures
        match directive_markdown(utf8(name@)) {
            Some(m) => r matches Some(s) && utf8(s@) == m,
            None => r is None,
        },
{
    if name_is(name, "@import") {
        Some(IMPORT_DOC)
    } else if name_is(name, "@include") {
        Some(INCLUDE_DOC)
    } else if name_is(name, "@use") {
        Some(USE_DOC)
    } else if name_is(name, "@profile") {
        Some(PROFILE_DOC)
    } else if name_is(name, "@luma") {
        Some(LUMA_DOC)
    } else {
        None
    }
}

/// The static type of a scalar: `boolean` and `null` for those plain words, else by kind.
pub open spec fn scalar_type(kind: ScalarKind, text: Seq<u8>) -> Seq<u8> {
    match kind {
        ScalarKind::Plain => if text == lit("true") || text == lit("false") {
            lit("boolean")
        } else if text == lit("null") || text == lit("nil") {
            lit("null")
        } else {
            lit("plain")
        },
        ScalarKind::String | ScalarKind::BlockString => lit("string"),
        ScalarKind::Number => lit("number"),
        ScalarKind::LuaExpression => lit("lua-expression"),
        ScalarKind::LuaBlock => lit("lua-block"),
    }
}

pub fn scalar_type_exec(kind: ScalarKind, text: &str) -> (r: &'static str)
    ensures
        utf8(r@) == scalar_type(kind, utf8(text@)),
{
    match kind {
        ScalarKind::Plain => if name_is(text, "true") || name_is(text, "false") {
            "boolean"
        } else if name_is(text, "null") || name_is(text, "nil") {
            "null"
        } else {
            "plain"
        },
        ScalarKind::String | ScalarKind::BlockString => "string",
        ScalarKind::Number => "number",
        ScalarKind::LuaExpression => "lua-expression",
        ScalarKind::LuaBlock => "lua-block",
    }
}

/// Backticks escaped with a backslash.
pub open spec fn escape_ticks(s: Seq<u8>) -> Seq<u8>
    decreases s.len(),
{
    if s.len() == 0 {
        seq![]
    } else {
        escape_ticks(s.drop_last()) + if s.last() == 0x60 {
            seq![0x5cu8, 0x60u8]
        } else {
            seq![s.last()]
        }
    }
}

proof fn lemma_escape_concat(a: Seq<u8>, b: Seq<u8>)
    ensures
        escape_ticks(a + b) == escape_ticks(a) + escape_ticks(b),
    decreases b.len(),
{
    if b.len() == 0 {
        assert(a + b =~= a);
        assert(escape_ticks(b) =~= Seq::<u8>::empty());
        assert(escape_ticks(a) + escape_ticks(b) =~= escape_ticks(a));
    } else {
        lemma_escape_concat(a, b.drop_last());
        assert((a + b).drop_last() =~= a + b.drop_last());
        assert((a + b).last() == b.last());
        assert(escape_ticks(a + b) =~= escape_ticks(a) + escape_ticks(b));
    }
}

proof fn lemma_escape_identity(s: Seq<u8>, k: int)
    requires
        0 <= k <= s.len(),
        forall|j: int| 0 <= j < k ==> s[j] != 0x60,
    ensures
        escape_ticks(s.subrange(0, k)) == s.subrange(0, k),
    decreases k,
{
    if k > 0 {
        lemma_escape_identity(s, k - 1);
        assert(s.subrange(0, k).drop_last() =~= s.subrange(0, k - 1));
        assert(escape_ticks(s.subrange(0, k)) =~= s.subrange(0, k));
    } else {
        assert(s.subrange(0, 0) =~= Seq::<u8>::empty());
    }
}

proof fn lemma_high_bit(y: u8)
    by (bit_vector)
    ensures
        (0x80u8 | y) >= 0x80,
        (0xC0u8 | y) >= 0x80,
        (0xE0u8 | y) >= 0x80,
        (0xF0u8 | y) >= 0x80,
{
}

/// Escaping keeps text valid: it only touches the one-byte backtick.
proof fn lemma_escape_encoded(cs: Seq<char>)
    ensures
        valid_utf8(escape_ticks(vstd::utf8::encode_utf8(cs))),
    decreases cs.len(),
{
    broadcast use vstd::utf8::encode_utf8_valid_utf8;

    if cs.len() == 0 {
        assert(escape_ticks(vstd::utf8::encode_utf8(cs)) =~= Seq::<u8>::empty());
        crate::text::lemma_ascii_valid(Seq::<u8>::empty());
    } else {
        let v = cs[0] as u32;
        let head = vstd::utf8::encode_scalar(v);
        let tail = vstd::utf8::encode_utf8(cs.drop_first());
        lemma_escape_concat(head, tail);
        lemma_escape_encoded(cs.drop_first());
        if vstd::utf8::has_width_1_encoding(v) {
            assert((v & 0x7F) == v) by (bit_vector)
                requires
                    v < 0x80,
            ;
            assert(head =~= seq![v as u8]);
            assert(head.drop_last() =~= Seq::<u8>::empty());
            assert(escape_ticks(head.drop_last()) =~= Seq::<u8>::empty());
            if v == 0x60 {
                assert(escape_ticks(head) =~= seq![0x5cu8, 0x60u8]);
                crate::text::lemma_ascii_valid(seq![0x5cu8, 0x60u8]);
            } else {
                assert(escape_ticks(head) =~= head);
                crate::text::lemma_ascii_valid(head);
            }
        } else {
            lemma_high_bit(((v >> 6) & 0x1F) as u8);
            lemma_high_bit(((v >> 12) & 0x0F) as u8);
            lemma_high_bit(((v >> 18) & 0x7) as u8);
            lemma_high_bit((v & 0x3F) as u8);
            lemma_high_bit(((v >> 6) & 0x3F) as u8);
            lemma_high_bit(((v >> 12) & 0x3F) as u8);
            assert forall|j: int| 0 <= j < head.len() implies head[j] != 0x60 by {
                assert(head[j] >= 0x80);
            }
            lemma_escape_identity(head, head.len() as int);
            assert(head.subrange(0, head.len() as int) =~= head);
            assert(vstd::utf8::encode_utf8(seq![cs[0]]) =~= head) by {
                assert(seq![cs[0]].drop_first() =~= Seq::<char>::empty());
                assert(vstd::utf8::encode_utf8(Seq::<char>::empty()) =~= Seq::<u8>::empty());
                assert(seq![cs[0]][0] == cs[0]);
            }
        }
    }
}

/// Appends the text with its backticks escaped.
pub fn push_escaped(out: &mut Vec<u8>, s: &str)
    requires
        valid_utf8(old(out)@),
    ensures
        final(out)@ == old(out)@ + escape_ticks(utf8(s@)),
        valid_utf8(final(out)@),
{
    let b = s.as_bytes();
    let ghost before = out@;
    let n = b.len();
    let mut i: usize = 0;
    while i < n
        invariant
            i <= n,
            n == b@.len(),
            out@ == before + escape_ticks(b@.subrange(0, i as int)),
        decreases n - i,
    {
        let ghost prev = b@.subrange(0, i as int);
        if b[i] == 0x60 {
            out.push(0x5c);
            out.push(0x60);
        } else {
            out.push(b[i]);
        }
        proof {
            let next = b@.subrange(0, i + 1);
            assert(next.drop_last() =~= prev);
            assert(next.last() == b@[i as int]);
            assert(out@ =~= before + escape_ticks(next));
        }
        i = i + 1;
    }
    proof {
        assert(b@.subrange(0, n as int) =~= b@);
        lemma_escape_encoded(s@);
    }
}

/// A markdown text built piece by piece.
pub fn markdown_of(pieces: Vec<u8>) -> (s: String)
    requires
        valid_utf8(pieces@),
    ensures
        utf8(s@) == pieces@,
{
    bytes_to_string(pieces)
}

pub fn push_lit(out: &mut Vec<u8>, s: &str)
    requires
        valid_utf8(old(out)@),
    ensures
        final(out)@ == old(out)@ + lit(s),
        valid_utf8(final(out)@),
{
    push_text(out, s);
}

} // verus!
