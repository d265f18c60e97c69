use lymals::parser::parse_fallback;
use lymals::semantic::SemanticDocument;
use lymals::symbol_search::candidate::WorkspaceSymbolKind;
use lymals::symbol_search::rank::{workspace_symbols, IndexedText, RankedSymbol};
use lymals::symbol_search::score::{normalize_query, score_match_exec};
use lymals::syntax::{FileId, ParsedFile};

const TEXT: &str = "@schema \"config.schema\"\nlet port = 8080\nserver:\n  host: local\n";

fn indexed(uri: &str, text: &str, relative: &str) -> IndexedText {
    let doc = parse_fallback(FileId(0), uri, text);
    let ParsedFile::Fallback(file) = &doc.file;
    let semantic = SemanticDocument::from_ast(&file.ast);
    IndexedText {
        uri: uri.to_string(),
        text: text.to_string(),
        relative_path: relative.to_string(),
        definitions: semantic.definitions,
    }
}

fn search(query: &str) -> Vec<RankedSymbol> {
    workspace_symbols(&vec![indexed("file:///workspace/main.luma", TEXT, "main.luma")], query)
}

#[test]
fn queries_are_trimmed_and_lower_cased() {
    assert_eq!(normalize_query("  PoRt \n"), "port");
}

#[test]
fn substring_hits_score_by_their_byte_index() {
    assert_eq!(score_match_exec("port", &vec!["Port".to_string()]), Some(10000));
    assert_eq!(score_match_exec("rt", &vec!["  port".to_string()]), Some(9998));
    assert_eq!(score_match_exec("x", &vec!["   ".to_string(), "abc".to_string()]), None);
}

#[test]
fn fuzzy_matches_need_every_character_in_order() {
    let chars = |s: &str| s.chars().collect::<Vec<char>>();
    assert_eq!(fuzzy_subsequence_score_chars(&chars("pt"), &chars("port")), Some(100 + 50 + 100 + 47));
    assert_eq!(fuzzy_subsequence_score_chars(&chars("tp"), &chars("port")), None);
}

fn fuzzy_subsequence_score_chars(q: &Vec<char>, c: &Vec<char>) -> Option<u32> {
    lymals::symbol_search::score::fuzzy_subsequence_score_exec(q, c)
}

#[test]
fn empty_query_scores_everything_alike() {
    assert_eq!(score_match_exec("", &Vec::new()), Some(1));
}

#[test]
fn a_query_finds_the_binding_first() {
    let found = search("PORT");
    assert!(!found.is_empty());
    let first = &found[0];
    assert_eq!(first.uri, "file:///workspace/main.luma");
    assert_eq!(first.symbol.name, "port");
    assert_eq!(first.symbol.kind, WorkspaceSymbolKind::Variable);
    assert_eq!(first.symbol.score, 10000);
    assert_eq!((first.symbol.range.start.line, first.symbol.range.start.character), (1, 4));
    assert_eq!((first.symbol.range.end.line, first.symbol.range.end.character), (1, 8));
    assert_eq!(first.symbol.container_name.as_deref(), Some("main.luma • document[1].$port"));
}

#[test]
fn schemas_are_listed_by_their_unquoted_value() {
    let found = search("config");
    let schema = found.iter().find(|r| r.symbol.kind == WorkspaceSymbolKind::Class).expect("schema");
    assert_eq!(schema.symbol.name, "config.schema");
    assert_eq!((schema.symbol.range.start.line, schema.symbol.range.start.character), (0, 8));
    assert_eq!(schema.symbol.range.end.character, 23);
}

#[test]
fn results_are_ordered_by_score_then_name() {
    let found = search("");
    assert!(found.iter().all(|r| r.symbol.score == 1));
    for pair in found.windows(2) {
        assert!(pair[0].symbol.name.as_bytes() <= pair[1].symbol.name.as_bytes());
    }
}
