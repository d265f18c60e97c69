use lymals::hover::markdown::IMPORT_DOC;
use lymals::hover::{hover, HoverRequest, HoverResult};
use lymals::syntax::{FileId, SourceSpan};

const TEXT: &str = "@import \"./shared.luma\" as shared\nlet port = 8080\nname: ${shared}\nlevel: ${port}\nflag: true\ncode: a`b\n";

fn hover_at(text: &str, offset: usize) -> Option<HoverResult> {
    hover(HoverRequest { uri: "file:///workspace/main.luma", text, file_id: FileId(0), offset })
}

fn span(start: usize, end: usize) -> SourceSpan {
    SourceSpan::new(FileId(0), start, end)
}

#[test]
fn directive_name_shows_its_documentation() {
    let found = hover_at(TEXT, 2).expect("hover");
    assert_eq!(found.span, span(0, 7));
    assert_eq!(found.markdown, IMPORT_DOC);
}

#[test]
fn import_alias_shows_its_target() {
    let found = hover_at(TEXT, 29).expect("hover");
    assert_eq!(found.span, span(27, 33));
    assert_eq!(
        found.markdown,
        "**Alias:** `shared`\n\nImported with `@import`.\nTarget: `./shared.luma`\n\nAvailable inside parse-only Lua expressions as a static import alias.\n\n**Static node type:** `alias`"
    );
}

#[test]
fn let_name_shows_the_binding() {
    let found = hover_at(TEXT, 39).expect("hover");
    assert_eq!(found.span, span(38, 42));
    assert_eq!(
        found.markdown,
        "**Let binding:** `port`\n\nLocal parse-only binding available to `${...}` expressions in the same document.\n\n**Static node type:** `binding`"
    );
}

#[test]
fn references_in_lua_scalars_resolve_to_aliases_and_bindings() {
    let alias = hover_at(TEXT, 59).expect("hover");
    assert_eq!(alias.span, span(58, 64));
    assert_eq!(
        alias.markdown,
        "**Alias:** `shared`\n\nImported/module alias.\nSource path: `./shared.luma`\nPath: `document[1].alias(shared)`\n\nAvailable inside parse-only Lua expressions without evaluation.\n\n**Static node type:** `alias`"
    );
    let binding = hover_at(TEXT, 75).expect("hover");
    assert_eq!(binding.span, span(75, 79));
    assert_eq!(
        binding.markdown,
        "**Let binding:** `port`\n\nResolved from the local semantic index.\nPath: `document[1].$port`\n\n**Static node type:** `binding`"
    );
}

#[test]
fn keys_show_their_path_and_value_type() {
    let found = hover_at(TEXT, 82).expect("hover");
    assert_eq!(found.span, span(81, 85));
    assert_eq!(
        found.markdown,
        "**Key:** `flag`\n\nPath: `document[1].flag`\nStatic value type: `boolean`\n\nSpec excerpt: Mapping keys select child nodes using `key: value` syntax and indentation-delimited blocks."
    );
}

#[test]
fn scalars_show_their_static_type_with_backticks_escaped() {
    let flag = hover_at(TEXT, 88).expect("hover");
    assert_eq!(flag.span, span(87, 91));
    assert_eq!(
        flag.markdown,
        "**Scalar:** `boolean`\n\nLiteral: `true`\nStatic node type: `boolean`\n\nSpec excerpt: Plain scalars stay static in parse-only mode; hover never evaluates Lua to refine runtime values."
    );
    let code = hover_at(TEXT, 99).expect("hover");
    assert_eq!(code.span, span(98, 101));
    assert_eq!(
        code.markdown,
        "**Scalar:** `plain`\n\nLiteral: `a\\`b`\nStatic node type: `plain`\n\nSpec excerpt: Plain scalars stay static in parse-only mode; hover never evaluates Lua to refine runtime values."
    );
}

#[test]
fn nothing_under_plain_let_values_and_separators() {
    assert!(hover_at(TEXT, 46).is_none());
    assert!(hover_at(TEXT, 33).is_none());
}

#[test]
fn unknown_directive_shows_its_diagnostic() {
    let found = hover_at("@foo bar\n", 1).expect("hover");
    assert_eq!(found.span, span(0, 4));
    assert_eq!(found.markdown, "**Diagnostics**\n- `L009` unknown directive");
}

#[test]
fn hover_spans_cover_the_offset() {
    for offset in 0..TEXT.len() {
        if let Some(found) = hover_at(TEXT, offset) {
            assert!(found.span.start <= offset && offset < found.span.end, "offset {offset}");
        }
    }
}
