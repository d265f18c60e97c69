//! Completion: the items offered at a position, from directives, profiles, import paths and
//! aliases, Lua names, mapping keys, scalar values and snippets.
pub mod corpus;
pub mod items;
pub mod prefix;
pub mod targets;

use vstd::prelude::*;
use vstd::utf8::valid_utf8;

use crate::completion::corpus::CompletionCorpus;
use crate::completion::items::{
    directive_items, directive_items_exec, env_items, items_view, list_items, one, profile_items, profile_items_exec,
    push_env_items, push_list_items, push_scalar_items, push_snippet, scalar_items, snippet_item, CompletionItem,
    CompletionItemKind, ItemV,
};
use crate::completion::prefix::{
    completion_offset, completion_offset_exec, first_ws, first_ws_exec, line_start, line_start_exec, lua_context,
    lua_context_exec, word_start, word_start_exec,
};
use crate::completion::targets::{alias_items, alias_items_exec, path_items, path_items_exec};
use crate::config::LumalsConfig;
use crate::imports::strings_view;
use crate::position::Position;
use crate::text::{char_boundary, find_byte, find_byte_exec, rfind_pat, skip_ws, trim_start_at, utf8, ws_width, ws_width_at};
use crate::workspace::texts_view;

verus! {

pub open spec fn as_word() -> Seq<u8> {
    seq![0x20u8, 0x61, 0x73, 0x20]
}

/// The items for a directive's argument `b[rs..off]` (the directive is `b[ts..i]`): profile
/// names, aliases after `as`, or import paths; `None` for other directives.
pub open spec fn directive_args(
    b: Seq<u8>,
    ts: int,
    off: int,
    uri: Seq<char>,
    folders: Seq<Seq<char>>,
    config: LumalsConfig,
    aliases: Seq<Seq<u8>>,
    paths: Seq<Seq<u8>>,
) -> Option<Seq<ItemV>> {
    match first_ws(b, ts, off) {
        None => None,
        Some(i) => {
            let rs = skip_ws(b, i + ws_width(b, i, off), off);
            let dir = b.subrange(ts, i);
            if dir == utf8("@profile"@) {
                Some(profile_items(b.subrange(rs, off)))
            } else if dir == utf8("@import"@) || dir == utf8("@include"@) || dir == utf8("@use"@) {
                if rfind_pat(b, rs, off, as_word()) is Some {
                    Some(alias_items(b, rs, off, aliases))
                } else {
                    Some(path_items(b, ts, i, rs, off, uri, folders, config, paths))
                }
            } else {
                None
            }
        },
    }
}

/// The items the line before `off` asks for.
pub open spec fn offered(
    b: Seq<u8>,
    off: int,
    uri: Seq<char>,
    folders: Seq<Seq<char>>,
    config: LumalsConfig,
    keys: Seq<Seq<u8>>,
    lets: Seq<Seq<u8>>,
    aliases: Seq<Seq<u8>>,
    paths: Seq<Seq<u8>>,
) -> Seq<ItemV> {
    let ls = line_start(b, off);
    let ts = skip_ws(b, ls, off);
    let p = b.subrange(word_start(b, ls, off), off);
    let at = off > ts && b[ts] == 0x40;
    let colon = find_byte(b, ls, off, 0x3a) is Some;
    if at && first_ws(b, ts, off) is None {
        directive_items(b.subrange(ts, off))
    } else if at && directive_args(b, ts, off, uri, folders, config, aliases, paths) is Some {
        directive_args(b, ts, off, uri, folders, config, aliases, paths)->0
    } else if lua_context(b, ls, ts, off) {
        env_items(p) + list_items(lets, p, CompletionItemKind::Variable, Some(utf8("Local let binding"@)), utf8(""@), None)
            + list_items(aliases, p, CompletionItemKind::Module, Some(utf8("Imported/module alias"@)), utf8(""@), None)
            + scalar_items(p)
    } else if !(colon || (off > ts && (b[ts] == 0x40 || b[ts] == 0x23 || b[ts] == 0x2d))) {
        list_items(keys, p, CompletionItemKind::Field, Some(utf8("Known mapping key"@)), utf8(": "@), one(":"))
            + snippet_item("let binding", "Create a let binding", "let ${1:name} = ${2:value}", p)
    } else if colon {
        scalar_items(p)
    } else {
        snippet_item("mapping entry", "Create a mapping entry", "${1:key}: ${2:value}", p)
    }
}

/// The completion at a position: nothing when completion is off, the position is past the
/// text, or the line is a comment; else the offered items, when there are any.
pub open spec fn completion_spec(
    b: Seq<u8>,
    position: Position,
    uri: Seq<char>,
    folders: Seq<Seq<char>>,
    config: LumalsConfig,
    keys: Seq<Seq<u8>>,
    lets: Seq<Seq<u8>>,
    aliases: Seq<Seq<u8>>,
    paths: Seq<Seq<u8>>,
) -> Option<Seq<ItemV>> {
    if !config.completion.enabled {
        None
    } else {
        match completion_offset(b, position.line, position.character) {
            None => None,
            Some(off) => {
                let ls = line_start(b, off);
                let ts = skip_ws(b, ls, off);
                if off > ts && b[ts] == 0x23 {
                    None
                } else {
                    let items = offered(b, off, uri, folders, config, keys, lets, aliases, paths);
                    if items.len() == 0 {
                        None
                    } else {
                        Some(items)
                    }
                }
            },
        }
    }
}

/// The cursor falls between characters (or completion is off).
pub open spec fn completion_position_ok(b: Seq<u8>, config: LumalsConfig, position: Position) -> bool {
    config.completion.enabled ==> (completion_offset(b, position.line, position.character) matches Some(o)
        ==> char_boundary(b, o))
}

/// Whether a completion request can be answered without cutting a character.
pub fn completion_position_supported(text: &str, config: &LumalsConfig, position: Position) -> (r: bool)
    ensures
        r == completion_position_ok(utf8(text@), *config, position),
{
    if !config.completion.enabled {
        return true;
    }
    let b = text.as_bytes();
    let n = b.len();
    let r = completion_offset_exec(b, position.line, position.character);
    proof {
        if let Some(o) = completion_offset(b@, position.line, position.character) {
            assert(r == Some(o as usize));
            assert(o as usize as int == o);
        }
    }
    match r {
        None => true,
        Some(o) => crate::syntax::is_boundary(b, o),
    }
}

fn directive_args_exec(
    out: &mut Vec<CompletionItem>,
    b: &[u8],
    ts: usize,
    off: usize,
    uri: &str,
    folders: &[String],
    config: &LumalsConfig,
    corpus: &CompletionCorpus,
    paths: &Vec<String>,
) -> (found: bool)
    requires
        valid_utf8(b@),
        ts <= off <= b@.len(),
        char_boundary(b@, ts as int),
        char_boundary(b@, off as int),
        items_view(old(out)@) == Seq::<ItemV>::empty(),
    ensures
        match directive_args(b@, ts as int, off as int, uri@, strings_view(folders@), *config, corpus.aliases(), texts_view(paths@)) {
            None => !found,
            Some(v) => found && items_view(final(out)@) == v,
        },
{
    proof {
        crate::completion::prefix::lemma_first_ws(b@, ts as int, off as int);
    }
    let i = match first_ws_exec(b, ts, off) {
        None => return false,
        Some(i) => i,
    };
    let w = ws_width_at(b, i, off);
    proof {
        crate::text::lemma_boundary_after_ws(b@, i as int, off as int);
    }
    let rs = trim_start_at(b, i + w, off);
    proof {
        crate::text::lemma_skip_ws_boundary(b@, i + w, off as int);
    }
    let ghost dir = b@.subrange(ts as int, i as int);
    let profile = "@profile".as_bytes();
    let import = "@import".as_bytes();
    let incl = "@include".as_bytes();
    let use_ = "@use".as_bytes();
    if crate::text::piece_eq(b, ts, i, profile) {
        let mut r: Vec<u8> = Vec::new();
        crate::text::push_range(&mut r, b, rs, off);
        proof {
            assert(r@ =~= b@.subrange(rs as int, off as int));
            crate::text::lemma_piece_valid(b@, rs as int, off as int);
        }
        let items = profile_items_exec(r.as_slice());
        *out = items;
        return true;
    }
    if crate::text::piece_eq(b, ts, i, import) || crate::text::piece_eq(b, ts, i, incl) || crate::text::piece_eq(
        b,
        ts,
        i,
        use_,
    ) {
        let pat: [u8; 4] = [0x20, 0x61, 0x73, 0x20];
        assert(pat@ =~= as_word());
        if crate::text::rfind_pat_exec(b, rs, off, &pat).is_some() {
            alias_items_exec(out, b, rs, off, corpus.aliases_list());
            assert(items_view(out@) =~= alias_items(b@, rs as int, off as int, corpus.aliases()));
        } else {
            path_items_exec(out, b, ts, i, rs, off, uri, folders, config, paths);
            assert(items_view(out@) =~= path_items(b@, ts as int, i as int, rs as int, off as int, uri@, strings_view(folders@), *config, texts_view(paths@)));
        }
        return true;
    }
    false
}

/// The completion items at a position of a document: directive names and snippets, profile
/// names, import paths from `paths` (the workspace's `.luma` files) and aliases, Lua names,
/// mapping keys, scalar values and snippets, by what the line before the cursor holds.
#[verifier::rlimit(40)]
pub fn complete(
    text: &str,
    position: Position,
    uri: &str,
    folders: &[String],
    config: &LumalsConfig,
    corpus: &CompletionCorpus,
    paths: &Vec<String>,
) -> (r: Option<Vec<CompletionItem>>)
    requires
        completion_position_ok(utf8(text@), *config, position),
    ensures
        match completion_spec(
            utf8(text@),
            position,
            uri@,
            strings_view(folders@),
            *config,
            corpus.keys(),
            corpus.lets(),
            corpus.aliases(),
            texts_view(paths@),
        ) {
            None => r is None,
            Some(v) => r matches Some(x) && items_view(x@) == v,
        },
{
    if !config.completion.enabled {
        return None;
    }
    let b = text.as_bytes();
    proof {
        crate::text::lemma_str_valid(text@);
    }
    let off = match completion_offset_exec(b, position.line, position.character) {
        None => return None,
        Some(o) => o,
    };
    let ls = line_start_exec(b, off);
    proof {
        crate::text::lemma_rfind_byte_bounds(b@, 0, off as int, 0x0a);
        if ls > 0 {
            crate::text::lemma_boundary_after_ascii(b@, ls - 1);
        }
        crate::text::lemma_skip_ws_boundary(b@, ls as int, off as int);
    }
    let ts = trim_start_at(b, ls, off);
    if off > ts && b[ts] == 0x23 {
        return None;
    }
    let ws = word_start_exec(b, ls, off);
    let mut p: Vec<u8> = Vec::new();
    crate::text::push_range(&mut p, b, ws, off);
    proof {
        assert(p@ =~= b@.subrange(ws as int, off as int));
        crate::completion::prefix::lemma_word_start(b@, ls as int, off as int);
        assert(char_boundary(b@, ws as int)) by {
            if ws < off {
                assert(crate::completion::prefix::is_word_byte(b@[ws as int]));
            }
        }
        crate::text::lemma_piece_valid(b@, ws as int, off as int);
    }
    let ghost keys = corpus.keys();
    let ghost lets = corpus.lets();
    let ghost aliases = corpus.aliases();
    let ghost fv = strings_view(folders@);
    let ghost pv = texts_view(paths@);
    let at = off > ts && b[ts] == 0x40;
    proof {
        crate::completion::prefix::lemma_first_ws(b@, ts as int, off as int);
    }
    let mut items: Vec<CompletionItem> = Vec::new();
    assert(items_view(items@) =~= Seq::<ItemV>::empty());
    let no_ws = first_ws_exec(b, ts, off).is_none();
    let colon = find_byte_exec(b, ls, off, 0x3a).is_some();
    if at && no_ws {
        let mut t: Vec<u8> = Vec::new();
        crate::text::push_range(&mut t, b, ts, off);
        assert(t@ =~= b@.subrange(ts as int, off as int));
        items = directive_items_exec(t.as_slice());
    } else if at && directive_args_exec(&mut items, b, ts, off, uri, folders, config, corpus, paths) {
    } else if lua_context_exec(b, ls, ts, off) {
        let mut v: Vec<CompletionItem> = Vec::new();
        assert(items_view(v@) =~= Seq::<ItemV>::empty());
        push_env_items(&mut v, p.as_slice());
        push_list_items(&mut v, corpus.lets_list(), p.as_slice(), CompletionItemKind::Variable, Some("Local let binding"), "", None);
        push_list_items(&mut v, corpus.aliases_list(), p.as_slice(), CompletionItemKind::Module, Some("Imported/module alias"), "", None);
        push_scalar_items(&mut v, p.as_slice());
        items = v;
    } else if !(colon || (off > ts && (b[ts] == 0x40 || b[ts] == 0x23 || b[ts] == 0x2d))) {
        let mut v: Vec<CompletionItem> = Vec::new();
        assert(items_view(v@) =~= Seq::<ItemV>::empty());
        push_list_items(&mut v, corpus.keys_list(), p.as_slice(), CompletionItemKind::Field, Some("Known mapping key"), ": ", Some(":"));
        push_snippet(&mut v, "let binding", "Create a let binding", "let ${1:name} = ${2:value}", p.as_slice());
        items = v;
    } else if colon {
        let mut v: Vec<CompletionItem> = Vec::new();
        assert(items_view(v@) =~= Seq::<ItemV>::empty());
        push_scalar_items(&mut v, p.as_slice());
        items = v;
    } else {
        let mut v: Vec<CompletionItem> = Vec::new();
        assert(items_view(v@) =~= Seq::<ItemV>::empty());
        push_snippet(&mut v, "mapping entry", "Create a mapping entry", "${1:key}: ${2:value}", p.as_slice());
        items = v;
    }
    assert(items_view(items@) == offered(b@, off as int, uri@, fv, *config, keys, lets, aliases, pv));
    if items.len() == 0 {
        None
    } else {
        Some(items)
    }
}

} // verus!
