use lymals::config::LumalsConfig;
use lymals::goto::{workspace_file_ok, Location};
use lymals::position::{Position, Range};
use lymals::references::find_references;
use lymals::syntax::FileId;

const MAIN: &str = "file:///ws/main.luma";
const SHARED: &str = "file:///ws/shared.luma";

fn folders() -> Vec<String> {
    vec!["file:///ws".to_owned()]
}

fn loc(uri: &str, l0: u32, c0: u32, l1: u32, c1: u32) -> Location {
    Location {
        uri: uri.to_owned(),
        range: Range { start: Position { line: l0, character: c0 }, end: Position { line: l1, character: c1 } },
    }
}

fn files() -> Vec<(String, String, FileId)> {
    vec![(SHARED.to_owned(), "port: 8080\n".to_owned(), FileId(1))]
}

fn refs(text: &str, offset: usize, with_decl: bool) -> Vec<Location> {
    assert!(workspace_file_ok(MAIN, text, FileId(0)));
    find_references(MAIN, text, FileId(0), offset, with_decl, &files(), &folders(), &LumalsConfig::default())
}

#[test]
fn a_let_binding_is_found_where_it_is_bound_and_used() {
    let text = "let port = 1\nv: ${port}\n";
    assert_eq!(refs(text, 5, true), vec![loc(MAIN, 0, 4, 0, 8), loc(MAIN, 1, 5, 1, 9)]);
    assert_eq!(refs(text, 19, false), vec![loc(MAIN, 1, 5, 1, 9)]);
}

#[test]
fn an_alias_is_found_in_its_import_and_its_uses() {
    let text = "@import \"./shared.luma\" as shared\nv: ${shared.port}\n";
    assert_eq!(refs(text, 40, true), vec![loc(MAIN, 0, 27, 0, 33), loc(MAIN, 1, 5, 1, 11)]);
}

#[test]
fn a_key_reached_through_an_alias_is_found_in_both_files() {
    let text = "@import \"./shared.luma\" as shared\nv: ${shared.port}\n";
    assert_eq!(refs(text, 47, true), vec![loc(MAIN, 1, 12, 1, 16), loc(SHARED, 0, 0, 0, 4)]);
    assert_eq!(refs(text, 47, false), vec![loc(MAIN, 1, 12, 1, 16)]);
}

#[test]
fn a_profile_name_is_its_own_declaration() {
    let text = "@profile dev\n";
    assert_eq!(refs(text, 10, true), vec![loc(MAIN, 0, 9, 0, 12)]);
    assert!(refs(text, 10, false).is_empty());
}

#[test]
fn nothing_is_referenced_away_from_names() {
    assert!(refs("v: 1\n", 3, true).is_empty());
}
