use lymals::config::LumalsConfig;
use lymals::position::{Position, Range};
use lymals::rename::{prepare_rename, rename, PreparedRename, RenameEdit, RenameError, WorkspaceEdit};
use lymals::syntax::FileId;

const MAIN: &str = "file:///ws/main.luma";
const SHARED: &str = "file:///ws/shared.luma";

fn folders() -> Vec<String> {
    vec!["file:///ws".to_owned()]
}

fn range(l0: u32, c0: u32, l1: u32, c1: u32) -> Range {
    Range { start: Position { line: l0, character: c0 }, end: Position { line: l1, character: c1 } }
}

fn edit(r: Range, text: &str) -> RenameEdit {
    RenameEdit { range: r, new_text: text.to_owned() }
}

fn files() -> Vec<(String, String, FileId)> {
    vec![(SHARED.to_owned(), "port: 8080\n".to_owned(), FileId(1))]
}

fn run(text: &str, offset: usize, new_name: &str) -> Result<WorkspaceEdit, RenameError> {
    rename(MAIN, text, FileId(0), offset, &files(), &folders(), &LumalsConfig::default(), new_name)
}

#[test]
fn a_let_binding_is_prepared_with_its_name() {
    let text = "let port = 1\nv: ${port}\n";
    let prepared = prepare_rename(MAIN, text, FileId(0), 5, &files(), &folders(), &LumalsConfig::default());
    assert_eq!(prepared, Some(PreparedRename { range: range(0, 4, 0, 8), placeholder: "port".to_owned() }));
}

#[test]
fn a_let_binding_is_renamed_where_it_is_bound_and_used() {
    let text = "let port = 1\nv: ${port}\n";
    let done = run(text, 5, "p2").unwrap();
    assert_eq!(
        done.changes,
        vec![(MAIN.to_owned(), vec![edit(range(0, 4, 0, 8), "p2"), edit(range(1, 5, 1, 9), "p2")])]
    );
}

#[test]
fn a_key_is_renamed_in_every_file_that_names_it() {
    let text = "@import \"./shared.luma\" as shared\nv: ${shared.port}\n";
    let prepared = prepare_rename(MAIN, text, FileId(0), 47, &files(), &folders(), &LumalsConfig::default());
    assert_eq!(prepared, Some(PreparedRename { range: range(1, 12, 1, 16), placeholder: "port".to_owned() }));
    let done = run(text, 47, "p").unwrap();
    assert_eq!(
        done.changes,
        vec![
            (SHARED.to_owned(), vec![edit(range(0, 0, 0, 4), "p")]),
            (MAIN.to_owned(), vec![edit(range(1, 12, 1, 16), "p")]),
        ]
    );
}

#[test]
fn a_name_with_other_characters_is_refused() {
    let text = "let port = 1\nv: ${port}\n";
    assert_eq!(run(text, 5, "a.b"), Err(RenameError::InvalidName));
    assert_eq!(run(text, 5, ""), Err(RenameError::InvalidName));
    assert_eq!(run(text, 5, "a b"), Err(RenameError::InvalidName));
}

#[test]
fn nothing_to_rename_is_refused() {
    let text = "v: 1\n";
    assert_eq!(run(text, 3, "w"), Err(RenameError::UnsupportedRange));
    assert_eq!(prepare_rename(MAIN, text, FileId(0), 3, &files(), &folders(), &LumalsConfig::default()), None);
}

#[test]
fn a_name_taken_by_another_binding_is_a_conflict() {
    let text = "let a = 1\nlet b = 2\nv: ${a}\n";
    assert_eq!(run(text, 4, "b"), Err(RenameError::Conflict));
    assert!(run(text, 4, "c").is_ok());
}
