//! Completion items and the fixed lists they come from.
use vstd::prelude::*;
use vstd::utf8::valid_utf8;

use crate::completion::prefix::{starts, starts_exec, strip_repeat, strip_repeat_exec};
use crate::text::utf8;
use crate::workspace::texts_view;

verus! {

/// What an item completes to.
#[derive(Debug, Clone, Copy, PartialEq, Eq, Structural)]
pub enum CompletionItemKind {
    Keyword,
    Value,
    Module,
    File,
    Variable,
    Field,
    Snippet,
}

/// One completion: its label and kind, a detail line, the text to insert (a snippet when
/// `snippet`), and the characters that accept it.
#[derive(Debug, Clone, PartialEq, Eq)]
pub struct CompletionItem {
    pub label: String,
    pub kind: CompletionItemKind,
    pub detail: Option<String>,
    pub insert_text: String,
    pub snippet: bool,
    pub commit_characters: Option<Vec<String>>,
}

/// An item as plain values, its texts as UTF-8 bytes.
pub struct ItemV {
    pub label: Seq<u8>,
    pub kind: CompletionItemKind,
    pub detail: Option<Seq<u8>>,
    pub insert: Seq<u8>,
    pub snippet: bool,
    pub commit: Option<Seq<Seq<u8>>>,
}

pub open spec fn item_view(i: CompletionItem) -> ItemV {
    ItemV {
        label: utf8(i.label@),
        kind: i.kind,
        detail: match i.detail {
            Some(d) => Some(utf8(d@)),
            None => None,
        },
        insert: utf8(i.insert_text@),
        snippet: i.snippet,
        commit: match i.commit_characters {
            Some(c) => Some(texts_view(c@)),
            None => None,
        },
    }
}

pub open spec fn items_view(v: Seq<CompletionItem>) -> Seq<ItemV> {
    v.map_values(|i: CompletionItem| item_view(i))
}

pub open spec fn keep_if(c: bool, it: ItemV) -> Seq<ItemV> {
    if c {
        seq![it]
    } else {
        seq![]
    }
}

pub open spec fn one(s: &str) -> Option<Seq<Seq<u8>>> {
    Some(seq![utf8(s@)])
}

fn commit_one(s: &str) -> (r: Option<Vec<String>>)
    ensures
        r matches Some(v) && texts_view(v@) == seq![utf8(s@)],
{
    let mut v: Vec<String> = Vec::new();
    v.push(s.to_owned());
    assert(texts_view(v@) =~= seq![utf8(s@)]);
    Some(v)
}

fn push(out: &mut Vec<CompletionItem>, it: CompletionItem)
    ensures
        items_view(final(out)@) == items_view(old(out)@).push(item_view(it)),
{
    let ghost before = items_view(out@);
    out.push(it);
    assert(items_view(out@) =~= before.push(item_view(it)));
}

/// A directive name: its item when it starts with the typed prefix.
pub open spec fn directive_item(name: &str, detail: &str, snippet: &str, p: Seq<u8>) -> Seq<ItemV> {
    keep_if(
        starts(utf8(name@), p),
        ItemV {
            label: utf8(name@),
            kind: CompletionItemKind::Keyword,
            detail: Some(utf8(detail@)),
            insert: utf8(snippet@),
            snippet: true,
            commit: one(" "),
        },
    )
}

fn push_directive(out: &mut Vec<CompletionItem>, name: &str, detail: &str, snippet: &str, p: &[u8])
    ensures
        items_view(final(out)@) == items_view(old(out)@) + directive_item(name, detail, snippet, p@),
{
    if starts_exec(name.as_bytes(), p) {
        let it = CompletionItem {
            label: name.to_owned(),
            kind: CompletionItemKind::Keyword,
            detail: Some(detail.to_owned()),
            insert_text: snippet.to_owned(),
            snippet: true,
            commit_characters: commit_one(" "),
        };
        let ghost before = items_view(out@);
        push(out, it);
        assert(items_view(out@) =~= before + directive_item(name, detail, snippet, p@));
    } else {
        assert(items_view(out@) =~= items_view(out@) + directive_item(name, detail, snippet, p@));
    }
}

/// The directives whose names start with the typed prefix.
pub open spec fn directive_items(p: Seq<u8>) -> Seq<ItemV> {
    directive_item("@import", "Import a local module", "@import \"${1:./shared.luma}\" as ${2:shared}", p)
        + directive_item("@include", "Include a local document", "@include \"${1:./partials/base.luma}\"", p)
        + directive_item("@use", "Use a local module alias", "@use \"${1:./modules/network.luma}\" as ${2:network}", p)
        + directive_item("@profile", "Select a profile", "@profile ${1:dev}", p)
        + directive_item("@luma", "Declare the Luma version", "@luma ${1:1}", p)
}

pub fn directive_items_exec(p: &[u8]) -> (r: Vec<CompletionItem>)
    ensures
        items_view(r@) == directive_items(p@),
{
    let mut out: Vec<CompletionItem> = Vec::new();
    assert(items_view(out@) =~= Seq::<ItemV>::empty());
    push_directive(&mut out, "@import", "Import a local module", "@import \"${1:./shared.luma}\" as ${2:shared}", p);
    push_directive(&mut out, "@include", "Include a local document", "@include \"${1:./partials/base.luma}\"", p);
    push_directive(
        &mut out,
        "@use",
        "Use a local module alias",
        "@use \"${1:./modules/network.luma}\" as ${2:network}",
        p,
    );
    push_directive(&mut out, "@profile", "Select a profile", "@profile ${1:dev}", p);
    push_directive(&mut out, "@luma", "Declare the Luma version", "@luma ${1:1}", p);
    assert(items_view(out@) =~= directive_items(p@));
    out
}

/// A fixed name offered when it starts with the prefix, inserting the rest of it.
pub open spec fn named_item(name: &str, kind: CompletionItemKind, detail: Option<Seq<u8>>, commit: Option<Seq<Seq<u8>>>, p: Seq<u8>) -> Seq<ItemV> {
    keep_if(
        starts(utf8(name@), p),
        ItemV {
            label: utf8(name@),
            kind,
            detail,
            insert: strip_repeat(utf8(name@), p),
            snippet: false,
            commit,
        },
    )
}

fn push_named(
    out: &mut Vec<CompletionItem>,
    name: &str,
    kind: CompletionItemKind,
    detail: Option<&str>,
    commit: Option<&str>,
    p: &[u8],
)
    requires
        valid_utf8(p@),
    ensures
        items_view(final(out)@) == items_view(old(out)@) + named_item(
            name,
            kind,
            match detail {
                Some(d) => Some(utf8(d@)),
                None => None,
            },
            match commit {
                Some(c) => one(c),
                None => None,
            },
            p@,
        ),
{
    let ghost dv = match detail {
        Some(d) => Some(utf8(d@)),
        None => None,
    };
    let ghost cv = match commit {
        Some(c) => one(c),
        None => None,
    };
    if starts_exec(name.as_bytes(), p) {
        let it = CompletionItem {
            label: name.to_owned(),
            kind,
            detail: match detail {
                Some(d) => Some(d.to_owned()),
                None => None,
            },
            insert_text: strip_repeat_exec(name, p),
            snippet: false,
            commit_characters: match commit {
                Some(c) => commit_one(c),
                None => None,
            },
        };
        let ghost before = items_view(out@);
        push(out, it);
        assert(items_view(out@) =~= before + named_item(name, kind, dv, cv, p@));
    } else {
        assert(items_view(out@) =~= items_view(out@) + named_item(name, kind, dv, cv, p@));
    }
}

pub open spec fn value_item(name: &str, detail: &str, p: Seq<u8>) -> Seq<ItemV> {
    named_item(name, CompletionItemKind::Value, Some(utf8(detail@)), one("\n"), p)
}

/// The profile names that start with the typed value.
pub open spec fn profile_items(p: Seq<u8>) -> Seq<ItemV> {
    value_item("dev", "Profile value", p) + value_item("development", "Profile value", p) + value_item(
        "test",
        "Profile value",
        p,
    ) + value_item("staging", "Profile value", p) + value_item("prod", "Profile value", p) + value_item(
        "production",
        "Profile value",
        p,
    )
}

pub fn profile_items_exec(p: &[u8]) -> (r: Vec<CompletionItem>)
    requires
        valid_utf8(p@),
    ensures
        items_view(r@) == profile_items(p@),
{
    let mut out: Vec<CompletionItem> = Vec::new();
    assert(items_view(out@) =~= Seq::<ItemV>::empty());
    push_named(&mut out, "dev", CompletionItemKind::Value, Some("Profile value"), Some("\n"), p);
    push_named(&mut out, "development", CompletionItemKind::Value, Some("Profile value"), Some("\n"), p);
    push_named(&mut out, "test", CompletionItemKind::Value, Some("Profile value"), Some("\n"), p);
    push_named(&mut out, "staging", CompletionItemKind::Value, Some("Profile value"), Some("\n"), p);
    push_named(&mut out, "prod", CompletionItemKind::Value, Some("Profile value"), Some("\n"), p);
    push_named(&mut out, "production", CompletionItemKind::Value, Some("Profile value"), Some("\n"), p);
    assert(items_view(out@) =~= profile_items(p@));
    out
}

/// The scalar values that start with the prefix.
pub open spec fn scalar_items(p: Seq<u8>) -> Seq<ItemV> {
    value_item("true", "Boolean true", p) + value_item("false", "Boolean false", p) + value_item(
        "null",
        "Null value",
        p,
    ) + value_item("nil", "Lua nil", p)
}

pub fn push_scalar_items(out: &mut Vec<CompletionItem>, p: &[u8])
    requires
        valid_utf8(p@),
    ensures
        items_view(final(out)@) == items_view(old(out)@) + scalar_items(p@),
{
    let ghost before = items_view(out@);
    push_named(out, "true", CompletionItemKind::Value, Some("Boolean true"), Some("\n"), p);
    push_named(out, "false", CompletionItemKind::Value, Some("Boolean false"), Some("\n"), p);
    push_named(out, "null", CompletionItemKind::Value, Some("Null value"), Some("\n"), p);
    push_named(out, "nil", CompletionItemKind::Value, Some("Lua nil"), Some("\n"), p);
    assert(items_view(out@) =~= before + scalar_items(p@));
}

proof fn lemma_distinct_names(a: Seq<char>, b: Seq<char>)
    requires
        a != b,
    ensures
        utf8(a) != utf8(b),
{
    if utf8(a) == utf8(b) {
        crate::text::lemma_utf8_injective(a, b);
    }
}

/// The place of a scalar value's name in the order true, false, null, nil.
pub open spec fn scalar_rank(label: Seq<u8>) -> int {
    if label == utf8("true"@) {
        0
    } else if label == utf8("false"@) {
        1
    } else if label == utf8("null"@) {
        2
    } else if label == utf8("nil"@) {
        3
    } else {
        4
    }
}

/// An item that completes the scalar value `name` (described by `detail`) after the prefix.
pub open spec fn is_value_item(it: ItemV, name: Seq<u8>, detail: Seq<u8>, p: Seq<u8>) -> bool {
    &&& it.label == name
    &&& it.kind == CompletionItemKind::Value
    &&& it.detail == Some(detail)
    &&& it.insert == strip_repeat(name, p)
    &&& !it.snippet
}

/// The scalar-value completions are exactly those of true, false, null and nil whose names
/// start with the typed prefix, each once, in that order.
pub proof fn law_scalar_values(p: Seq<u8>)
    ensures
        forall|i: int| 0 <= i < scalar_items(p).len() ==> scalar_rank((#[trigger] scalar_items(p)[i]).label) < 4
            && starts(scalar_items(p)[i].label, p),
        forall|i: int, j: int|
            0 <= i < j < scalar_items(p).len() ==> scalar_rank((#[trigger] scalar_items(p)[i]).label) < scalar_rank(
                (#[trigger] scalar_items(p)[j]).label,
            ),
        starts(utf8("true"@), p) <==> exists|i: int|
            0 <= i < scalar_items(p).len() && is_value_item(#[trigger] scalar_items(p)[i], utf8("true"@), utf8("Boolean true"@), p),
        starts(utf8("false"@), p) <==> exists|i: int|
            0 <= i < scalar_items(p).len() && is_value_item(#[trigger] scalar_items(p)[i], utf8("false"@), utf8("Boolean false"@), p),
        starts(utf8("null"@), p) <==> exists|i: int|
            0 <= i < scalar_items(p).len() && is_value_item(#[trigger] scalar_items(p)[i], utf8("null"@), utf8("Null value"@), p),
        starts(utf8("nil"@), p) <==> exists|i: int|
            0 <= i < scalar_items(p).len() && is_value_item(#[trigger] scalar_items(p)[i], utf8("nil"@), utf8("Lua nil"@), p),
{
    reveal_strlit("true");
    reveal_strlit("false");
    reveal_strlit("null");
    reveal_strlit("nil");
    let t = value_item("true", "Boolean true", p);
    let f = value_item("false", "Boolean false", p);
    let n = value_item("null", "Null value", p);
    let l = value_item("nil", "Lua nil", p);
    let all = scalar_items(p);
    assert(all == t + f + n + l);
    assert("true"@[0] != "false"@[0]);
    assert("true"@[0] != "null"@[0]);
    assert("null"@.len() != "nil"@.len());
    assert("false"@[0] != "nil"@[0]);
    assert("true"@[0] != "nil"@[0]);
    assert("false"@[0] != "null"@[0]);
    lemma_distinct_names("true"@, "false"@);
    lemma_distinct_names("true"@, "null"@);
    lemma_distinct_names("null"@, "nil"@);
    lemma_distinct_names("false"@, "nil"@);
    lemma_distinct_names("true"@, "nil"@);
    lemma_distinct_names("false"@, "null"@);
    assert forall|i: int| 0 <= i < all.len() implies (i < t.len() ==> all[i] == t[i]) && (t.len() <= i < t.len() + f.len() ==> all[i] == f[i - t.len()]) && (t.len() + f.len() <= i < t.len() + f.len() + n.len() ==> all[i] == n[i - t.len() - f.len()]) && (t.len() + f.len() + n.len() <= i ==> all[i] == l[i - t.len() - f.len() - n.len()]) by {
    }
    if starts(utf8("true"@), p) {
        assert(is_value_item(all[0], utf8("true"@), utf8("Boolean true"@), p));
    }
    if starts(utf8("false"@), p) {
        assert(is_value_item(all[t.len() as int], utf8("false"@), utf8("Boolean false"@), p));
    }
    if starts(utf8("null"@), p) {
        assert(is_value_item(all[(t.len() + f.len()) as int], utf8("null"@), utf8("Null value"@), p));
    }
    if starts(utf8("nil"@), p) {
        assert(is_value_item(all[(t.len() + f.len() + n.len()) as int], utf8("nil"@), utf8("Lua nil"@), p));
    }
}

pub open spec fn env_item(name: &str, detail: &str, p: Seq<u8>) -> Seq<ItemV> {
    named_item(name, CompletionItemKind::Variable, Some(utf8(detail@)), None, p)
}

/// The names of the Lua environment that start with the prefix.
pub open spec fn env_items(p: Seq<u8>) -> Seq<ItemV> {
    env_item("env", "Environment bindings", p) + env_item("profile", "Active profile", p) + env_item(
        "vars",
        "Template variables",
        p,
    ) + env_item("module", "Current module", p) + env_item("import", "Imported values", p)
}

pub fn push_env_items(out: &mut Vec<CompletionItem>, p: &[u8])
    requires
        valid_utf8(p@),
    ensures
        items_view(final(out)@) == items_view(old(out)@) + env_items(p@),
{
    let ghost before = items_view(out@);
    push_named(out, "env", CompletionItemKind::Variable, Some("Environment bindings"), None, p);
    push_named(out, "profile", CompletionItemKind::Variable, Some("Active profile"), None, p);
    push_named(out, "vars", CompletionItemKind::Variable, Some("Template variables"), None, p);
    push_named(out, "module", CompletionItemKind::Variable, Some("Current module"), None, p);
    push_named(out, "import", CompletionItemKind::Variable, Some("Imported values"), None, p);
    assert(items_view(out@) =~= before + env_items(p@));
}

/// One item per listed name that starts with the prefix, inserting the rest of the name
/// followed by `tail`.
pub open spec fn list_items(
    names: Seq<Seq<u8>>,
    p: Seq<u8>,
    kind: CompletionItemKind,
    detail: Option<Seq<u8>>,
    tail: Seq<u8>,
    commit: Option<Seq<Seq<u8>>>,
) -> Seq<ItemV>
    decreases names.len(),
{
    if names.len() == 0 {
        seq![]
    } else {
        list_items(names.drop_last(), p, kind, detail, tail, commit) + keep_if(
            starts(names.last(), p),
            ItemV {
                label: names.last(),
                kind,
                detail,
                insert: strip_repeat(names.last(), p) + tail,
                snippet: false,
                commit,
            },
        )
    }
}

pub fn push_list_items(
    out: &mut Vec<CompletionItem>,
    names: &Vec<String>,
    p: &[u8],
    kind: CompletionItemKind,
    detail: Option<&str>,
    tail: &str,
    commit: Option<&str>,
)
    requires
        valid_utf8(p@),
    ensures
        items_view(final(out)@) == items_view(old(out)@) + list_items(
            texts_view(names@),
            p@,
            kind,
            match detail {
                Some(d) => Some(utf8(d@)),
                None => None,
            },
            utf8(tail@),
            match commit {
                Some(c) => one(c),
                None => None,
            },
        ),
{
    let ghost dv = match detail {
        Some(d) => Some(utf8(d@)),
        None => None,
    };
    let ghost cv = match commit {
        Some(c) => one(c),
        None => None,
    };
    let ghost before = items_view(out@);
    let ghost nv = texts_view(names@);
    let mut k: usize = 0;
    assert(items_view(out@) =~= before + list_items(nv.take(0), p@, kind, dv, utf8(tail@), cv));
    while k < names.len()
        invariant
            k <= names@.len(),
            nv == texts_view(names@),
            valid_utf8(p@),
            dv == (match detail {
                Some(d) => Some(utf8(d@)),
                None => None,
            }),
            cv == (match commit {
                Some(c) => one(c),
                None => None,
            }),
            items_view(out@) == before + list_items(nv.take(k as int), p@, kind, dv, utf8(tail@), cv),
        decreases names@.len() - k,
    {
        let ghost t = nv.take(k + 1);
        assert(t.drop_last() =~= nv.take(k as int));
        assert(t.last() == utf8(names@[k as int]@));
        let ghost mid = items_view(out@);
        if starts_exec(names[k].as_str().as_bytes(), p) {
            let stripped = strip_repeat_exec(names[k].as_str(), p);
            let insert = crate::text::concat2(stripped.as_str(), tail);
            proof {
                crate::text::lemma_utf8_concat(stripped@, tail@);
            }
            let it = CompletionItem {
                label: names[k].clone(),
                kind,
                detail: match detail {
                    Some(d) => Some(d.to_owned()),
                    None => None,
                },
                insert_text: insert,
                snippet: false,
                commit_characters: match commit {
                    Some(c) => commit_one(c),
                    None => None,
                },
            };
            assert(utf8(it.insert_text@) == strip_repeat(t.last(), p@) + utf8(tail@));
            assert(item_view(it).label == t.last());
            assert(item_view(it).detail == dv);
            assert(item_view(it).commit == cv);
            assert(item_view(it).insert == strip_repeat(t.last(), p@) + utf8(tail@));
            assert(item_view(it) == ItemV {
                label: t.last(),
                kind,
                detail: dv,
                insert: strip_repeat(t.last(), p@) + utf8(tail@),
                snippet: false,
                commit: cv,
            });
            push(out, it);
            assert(starts(t.last(), p@));
            assert(list_items(t, p@, kind, dv, utf8(tail@), cv) == list_items(nv.take(k as int), p@, kind, dv, utf8(tail@), cv) + seq![item_view(it)]);
            assert(items_view(out@) =~= before + list_items(t, p@, kind, dv, utf8(tail@), cv));
        } else {
            assert(items_view(out@) =~= before + list_items(t, p@, kind, dv, utf8(tail@), cv));
        }
        k = k + 1;
    }
    assert(nv.take(names@.len() as int) =~= nv);
}

/// The snippet `label` offered when the prefix is empty or starts it.
pub open spec fn snippet_item(label: &str, detail: &str, body: &str, p: Seq<u8>) -> Seq<ItemV> {
    keep_if(
        p.len() == 0 || starts(utf8(label@), p),
        ItemV {
            label: utf8(label@),
            kind: CompletionItemKind::Snippet,
            detail: Some(utf8(detail@)),
            insert: utf8(body@),
            snippet: true,
            commit: None,
        },
    )
}

pub fn push_snippet(out: &mut Vec<CompletionItem>, label: &str, detail: &str, body: &str, p: &[u8])
    ensures
        items_view(final(out)@) == items_view(old(out)@) + snippet_item(label, detail, body, p@),
{
    let ghost before = items_view(out@);
    if p.len() == 0 || starts_exec(label.as_bytes(), p) {
        let it = CompletionItem {
            label: label.to_owned(),
            kind: CompletionItemKind::Snippet,
            detail: Some(detail.to_owned()),
            insert_text: body.to_owned(),
            snippet: true,
            commit_characters: None,
        };
        push(out, it);
        assert(items_view(out@) =~= before + snippet_item(label, detail, body, p@));
    } else {
        assert(items_view(out@) =~= before + snippet_item(label, detail, body, p@));
    }
}

} // verus!
