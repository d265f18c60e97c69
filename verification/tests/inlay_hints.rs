use lymals::config::InlayHintsSettings;
use lymals::inlay_hints::values::{infer_inline_value_type, is_float_literal};
use lymals::inlay_hints::{collect, InlayHintKind, InlayHintsRequest, ResolvedImport};
use lymals::position::{Position, Range};
use lymals::syntax::FileId;

fn all_on() -> InlayHintsSettings {
    InlayHintsSettings {
        enabled: true,
        inferred_types: true,
        key_paths: true,
        let_bindings: true,
        profile_effects: true,
        import_resolution: true,
    }
}

fn whole(lines: u32) -> Range {
    Range { start: Position { line: 0, character: 0 }, end: Position { line: lines, character: 0 } }
}

fn hints(text: &str, settings: &InlayHintsSettings, range: Range, imports: &Vec<ResolvedImport>) -> Option<Vec<(u32, u32, String, InlayHintKind)>> {
    collect(InlayHintsRequest { uri: "file:///w/main.luma", text, file_id: FileId(0), range, settings, imports })
        .map(|v| v.into_iter().map(|h| (h.position.line, h.position.character, h.label, h.kind)).collect())
}

#[test]
fn hints_cover_profiles_bindings_keys_and_scalars_in_order() {
    let text = "@profile dev\nlet port = 8080\nname: ${port}\nflag: true\n";
    let found = hints(text, &all_on(), whole(4), &Vec::new()).expect("hints");
    assert_eq!(
        found,
        vec![
            (0, 12, "activates `dev` profile".to_string(), InlayHintKind::Parameter),
            (1, 8, "= 8080 : number".to_string(), InlayHintKind::Type),
            (2, 4, "document[1].name".to_string(), InlayHintKind::Parameter),
            (2, 13, ": lua-expression".to_string(), InlayHintKind::Type),
            (3, 4, "document[1].flag".to_string(), InlayHintKind::Parameter),
            (3, 10, ": boolean".to_string(), InlayHintKind::Type),
        ]
    );
}

#[test]
fn disabled_hints_give_nothing() {
    let mut settings = all_on();
    settings.enabled = false;
    assert_eq!(hints("a: 1\n", &settings, whole(1), &Vec::new()), None);
}

#[test]
fn resolved_imports_show_their_target() {
    let settings = InlayHintsSettings {
        enabled: true,
        inferred_types: false,
        key_paths: false,
        let_bindings: false,
        profile_effects: false,
        import_resolution: true,
    };
    let imports = vec![ResolvedImport { target: "./a.luma".to_string(), uri: "file:///w/a.luma".to_string() }];
    let found = hints("@import \"./a.luma\" as a\n", &settings, whole(1), &imports).expect("hints");
    assert_eq!(found, vec![(0, 17, "→ file:///w/a.luma".to_string(), InlayHintKind::Parameter)]);
    let unresolved = hints("@import \"./a.luma\" as a\n", &settings, whole(1), &Vec::new()).expect("hints");
    assert!(unresolved.is_empty());
}

#[test]
fn hints_outside_the_range_are_left_out() {
    let text = "a: 1\nb: 2\n";
    let range = Range { start: Position { line: 1, character: 0 }, end: Position { line: 2, character: 0 } };
    let found = hints(text, &all_on(), range, &Vec::new()).expect("hints");
    assert!(found.iter().all(|(line, _, _, _)| *line == 1));
}

#[test]
fn float_literals_follow_the_standard_grammar() {
    for ok in ["1", "1.5", "1.", ".5", "1e5", "1E-5", "+2", "-inf", "NaN", "Infinity"] {
        assert!(is_float_literal(ok.as_bytes()), "{ok}");
    }
    for bad in ["", ".", "1e", "e5", "1_000", "0x10", "1.2.3", "+"] {
        assert!(!is_float_literal(bad.as_bytes()), "{bad}");
    }
}

#[test]
fn inline_values_are_typed() {
    assert_eq!(infer_inline_value_type(" ${x} "), "lua-expression");
    assert_eq!(infer_inline_value_type("= 1 + 2"), "lua-expression");
    assert_eq!(infer_inline_value_type("'a'"), "string");
    assert_eq!(infer_inline_value_type("false"), "boolean");
    assert_eq!(infer_inline_value_type("nil"), "null");
    assert_eq!(infer_inline_value_type("-3.25"), "number");
    assert_eq!(infer_inline_value_type("hello"), "plain");
}
