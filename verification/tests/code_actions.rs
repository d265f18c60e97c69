use lymals::code_actions::collect::{collect, CodeActionRequest};
use lymals::code_actions::common::{CodeAction, CodeActionKind, ContextDiagnostic};
use lymals::code_actions::edit_distance::{best_directive_suggestion, levenshtein};
use lymals::position::{Position, Range};
use lymals::syntax::FileId;

fn range(l0: u32, c0: u32, l1: u32, c1: u32) -> Range {
    Range {
        start: Position { line: l0, character: c0 },
        end: Position { line: l1, character: c1 },
    }
}

fn diagnostic(code: &str, r: Range) -> ContextDiagnostic {
    ContextDiagnostic { range: r, code: Some(code.to_string()) }
}

fn actions(text: &str, r: Range, diagnostics: &[ContextDiagnostic], imports: bool) -> Vec<CodeAction> {
    collect(&CodeActionRequest {
        file_id: FileId(1),
        uri: "file:///workspace/test.luma",
        text,
        range: r,
        diagnostics,
        imports_enabled: imports,
    })
}

#[test]
fn collects_expected_quickfixes_and_source_actions() {
    let text = "@profil dev\n@import \"./b.luma\"\n@import \"./a.luma\"\nname:\n  enabled: true\nservice: one\nservice: two\n";
    let diagnostics = vec![diagnostic("L009", range(0, 0, 0, 7)), diagnostic("L002", range(6, 0, 6, 7))];
    let titles: Vec<String> = actions(text, range(3, 0, 4, 15), &diagnostics, true)
        .into_iter()
        .map(|action| action.title)
        .collect();

    assert!(titles.iter().any(|title| title.contains("Normalize directive")));
    assert!(titles.iter().any(|title| title.contains("Remove duplicate key")));
    assert!(titles.iter().any(|title| title.contains("Rename duplicate key")));
    assert!(titles.iter().any(|title| title.contains("Convert empty value")));
    assert!(titles.iter().any(|title| title.contains("Insert @luma 0.1")));
    assert!(titles.iter().any(|title| title.contains("Organize directives and imports")));
}

#[test]
fn quick_fixes_carry_their_edits_in_order() {
    let text = "@profil dev\n@import \"./b.luma\"\n@import \"./a.luma\"\nname:\n  enabled: true\nservice: one\nservice: two\n";
    let diagnostics = vec![diagnostic("L009", range(0, 0, 0, 7)), diagnostic("L002", range(6, 0, 6, 7))];
    let all = actions(text, range(3, 0, 4, 15), &diagnostics, true);
    let described: Vec<(String, Option<usize>, String)> = all
        .iter()
        .map(|a| (a.title.clone(), a.diagnostic, a.new_text.clone()))
        .collect();
    assert_eq!(
        described,
        vec![
            ("Normalize directive to `@profile`".to_string(), Some(0), "@profile".to_string()),
            ("Remove duplicate key `service`".to_string(), Some(1), String::new()),
            ("Rename duplicate key to `service_2`".to_string(), Some(1), "service_2".to_string()),
            ("Quote ambiguous scalar `true`".to_string(), None, "\"true\"".to_string()),
            ("Convert empty value for `name` to null".to_string(), None, " null".to_string()),
            ("Insert @luma 0.1".to_string(), None, "@luma 0.1\n".to_string()),
            (
                "Organize directives and imports".to_string(),
                None,
                "@import \"./a.luma\"\n@import \"./b.luma\"\n@profil dev\n".to_string()
            ),
        ]
    );
    assert_eq!(all[1].range, range(6, 0, 7, 0));
    assert_eq!(all[2].range, range(6, 0, 6, 7));
    assert_eq!(all[0].range, range(0, 0, 0, 7));
    assert_eq!(all[6].kind, CodeActionKind::SourceOrganizeImports);
    assert_eq!(all[6].range, range(0, 0, 3, 0));
    assert_eq!(all[3].range, range(4, 11, 4, 15));
    assert!(all[0].is_preferred && !all[2].is_preferred);
}

#[test]
fn organize_is_offered_only_with_imports_enabled() {
    let text = "@use b\n@luma 0.1\n";
    let with: Vec<String> = actions(text, range(0, 0, 0, 0), &[], true).into_iter().map(|a| a.title).collect();
    let without: Vec<String> = actions(text, range(0, 0, 0, 0), &[], false).into_iter().map(|a| a.title).collect();
    assert_eq!(with, vec!["Organize directives and imports".to_string()]);
    assert!(without.is_empty());
}

#[test]
fn quotes_ambiguous_scalars_in_the_selection() {
    let text = "@luma 0.1\nflag: yes\n";
    let all = actions(text, range(1, 0, 1, 9), &[], false);
    assert_eq!(all.len(), 1);
    assert_eq!(all[0].title, "Quote ambiguous scalar `yes`");
    assert_eq!(all[0].new_text, "\"yes\"");
    assert_eq!(all[0].range, range(1, 6, 1, 9));
}

#[test]
fn replaces_tabs_and_uses_crlf_for_the_header() {
    let text = "a:\r\n\tb: 1\r\n";
    let all = actions(text, range(0, 0, 0, 0), &[diagnostic("L003", range(1, 0, 1, 1))], false);
    let tabs = all.iter().find(|a| a.title == "Replace tab with two spaces").expect("tab fix");
    assert_eq!(tabs.new_text, "  ");
    assert_eq!(tabs.diagnostic, Some(0));
    let header = all.iter().find(|a| a.title == "Insert @luma 0.1").expect("header");
    assert_eq!(header.new_text, "@luma 0.1\r\n");
}

#[test]
fn selection_offers_both_fixes_for_repeated_keys() {
    let text = "@luma 0.1\nk: 1\nk: 2\nk_2: 3\n";
    let titles: Vec<String> = actions(text, range(2, 0, 2, 4), &[], false).into_iter().map(|a| a.title).collect();
    assert_eq!(
        titles,
        vec!["Remove duplicate key `k`".to_string(), "Rename duplicate key to `k_3`".to_string()]
    );
}

#[test]
fn edit_distance_counts_character_edits() {
    assert_eq!(levenshtein("kitten", "sitting"), 3);
    assert_eq!(levenshtein("", "abc"), 3);
    assert_eq!(levenshtein("é", "e"), 1);
    assert_eq!(best_directive_suggestion("@IMPORT"), Some("@import"));
    assert_eq!(best_directive_suggestion("@profil"), Some("@profile"));
    assert_eq!(best_directive_suggestion("@lue"), Some("@lua"));
    assert_eq!(best_directive_suggestion("@zzzzzz"), None);
}
