use lymals::config::LumalsConfig;
use lymals::goto::{goto_declaration, goto_definition, goto_implementation, goto_type_definition, workspace_file_ok, Location};
use lymals::position::{Position, Range};
use lymals::syntax::FileId;

const MAIN: &str = "file:///ws/main.luma";
const SHARED: &str = "file:///ws/shared.luma";

fn folders() -> Vec<String> {
    vec!["file:///ws".to_owned()]
}

fn range(l0: u32, c0: u32, l1: u32, c1: u32) -> Range {
    Range { start: Position { line: l0, character: c0 }, end: Position { line: l1, character: c1 } }
}

fn files() -> Vec<(String, String, FileId)> {
    vec![(SHARED.to_owned(), "port: 8080\n".to_owned(), FileId(1))]
}

#[test]
fn a_let_name_in_an_expression_leads_to_the_binding() {
    let text = "let port = 1\nv: ${port}\n";
    assert!(workspace_file_ok(MAIN, text, FileId(0)));
    let found = goto_definition(MAIN, text, FileId(0), 19, &files(), &folders(), &LumalsConfig::default());
    assert_eq!(found, vec![Location { uri: MAIN.to_owned(), range: range(0, 4, 0, 8) }]);
    let declared = goto_declaration(MAIN, text, FileId(0), 19, &files(), &folders(), &LumalsConfig::default());
    assert_eq!(declared, found);
}

#[test]
fn an_alias_path_leads_to_the_key_in_the_imported_file() {
    let text = "@import \"./shared.luma\" as shared\nv: ${shared.port}\n";
    let found = goto_definition(MAIN, text, FileId(0), 40, &files(), &folders(), &LumalsConfig::default());
    assert_eq!(found, vec![Location { uri: SHARED.to_owned(), range: range(0, 0, 0, 4) }]);
    let implemented = goto_implementation(MAIN, text, FileId(0), 40, &files(), &folders(), &LumalsConfig::default());
    assert_eq!(implemented, found);
}

#[test]
fn an_import_target_leads_to_the_imported_file() {
    let text = "@import \"./shared.luma\" as shared\n";
    let found = goto_implementation(MAIN, text, FileId(0), 12, &files(), &folders(), &LumalsConfig::default());
    assert_eq!(found.len(), 1);
    assert_eq!(found[0].uri, SHARED);
    assert_eq!(found[0].range.start, Position { line: 0, character: 0 });
    let defined = goto_definition(MAIN, text, FileId(0), 12, &files(), &folders(), &LumalsConfig::default());
    assert_eq!(defined, found);
}

#[test]
fn nothing_is_found_away_from_names() {
    let text = "v: 1\n";
    assert!(goto_definition(MAIN, text, FileId(0), 3, &files(), &folders(), &LumalsConfig::default()).is_empty());
    assert!(goto_implementation(MAIN, text, FileId(0), 3, &files(), &folders(), &LumalsConfig::default()).is_empty());
}

#[test]
fn a_profile_value_leads_to_the_profile_directives() {
    let text = "@profile dev\n";
    let found = goto_type_definition(MAIN, text, FileId(0), 10, &files(), &folders(), &LumalsConfig::default());
    assert_eq!(found, vec![Location { uri: MAIN.to_owned(), range: range(0, 9, 0, 12) }]);
}
