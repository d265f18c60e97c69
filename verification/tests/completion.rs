use lymals::completion::corpus::CompletionCorpus;
use lymals::completion::items::{CompletionItem, CompletionItemKind};
use lymals::completion::{complete, completion_position_supported};
use lymals::config::LumalsConfig;
use lymals::position::Position;
use lymals::syntax::FileId;

const URI: &str = "file:///workspace/main.luma";

fn at(line: u32, character: u32) -> Position {
    Position { line, character }
}

fn run(text: &str, position: Position, corpus: &CompletionCorpus) -> Option<Vec<CompletionItem>> {
    let config = LumalsConfig::default();
    let folders = vec!["/workspace".to_owned()];
    let paths: Vec<String> = Vec::new();
    assert!(completion_position_supported(text, &config, position));
    complete(text, position, URI, &folders, &config, corpus, &paths)
}

fn labels(items: &[CompletionItem]) -> Vec<&str> {
    items.iter().map(|item| item.label.as_str()).collect()
}

#[test]
fn directive_prefix_offers_the_matching_directive() {
    let items = run("@im", at(0, 3), &CompletionCorpus::new()).expect("items");
    assert_eq!(labels(&items), vec!["@import"]);
    let item = &items[0];
    assert_eq!(item.kind, CompletionItemKind::Keyword);
    assert_eq!(item.detail.as_deref(), Some("Import a local module"));
    assert_eq!(item.insert_text, "@import \"${1:./shared.luma}\" as ${2:shared}");
    assert!(item.snippet);
    assert_eq!(item.commit_characters, Some(vec![" ".to_owned()]));
}

#[test]
fn bare_at_sign_offers_every_directive() {
    let items = run("@", at(0, 1), &CompletionCorpus::new()).expect("items");
    assert_eq!(labels(&items), vec!["@import", "@include", "@use", "@profile", "@luma"]);
}

#[test]
fn comment_lines_offer_nothing() {
    assert!(run("# note", at(0, 4), &CompletionCorpus::new()).is_none());
}

#[test]
fn value_position_offers_scalars_with_the_typed_part_removed() {
    let items = run("a: t", at(0, 4), &CompletionCorpus::new()).expect("items");
    assert_eq!(labels(&items), vec!["true"]);
    assert_eq!(items[0].insert_text, "rue");
    assert_eq!(items[0].kind, CompletionItemKind::Value);
    assert_eq!(items[0].detail.as_deref(), Some("Boolean true"));
    assert_eq!(items[0].commit_characters, Some(vec!["\n".to_owned()]));
}

#[test]
fn column_past_the_line_end_is_cut_at_the_line_end() {
    let items = run("a: n", at(0, 40), &CompletionCorpus::new()).expect("items");
    assert_eq!(labels(&items), vec!["null", "nil"]);
    assert_eq!(items[0].insert_text, "ull");
    assert_eq!(items[1].insert_text, "il");
}

#[test]
fn profile_directive_offers_profile_names() {
    let items = run("@profile d", at(0, 10), &CompletionCorpus::new()).expect("items");
    assert_eq!(labels(&items), vec!["dev", "development"]);
    assert_eq!(items[0].insert_text, "ev");
    assert_eq!(items[1].insert_text, "evelopment");
}

#[test]
fn known_keys_are_offered_at_the_start_of_a_line() {
    let mut corpus = CompletionCorpus::new();
    corpus.ingest_text("file:///workspace/other.luma", "name: x\nport: 1\n", FileId(1));
    assert_eq!(corpus.keys_list(), &vec!["name".to_owned(), "port".to_owned()]);
    let items = run("na", at(0, 2), &corpus).expect("items");
    assert_eq!(labels(&items), vec!["name"]);
    assert_eq!(items[0].kind, CompletionItemKind::Field);
    assert_eq!(items[0].insert_text, "me: ");
    assert_eq!(items[0].commit_characters, Some(vec![":".to_owned()]));
}

#[test]
fn empty_line_offers_keys_and_the_let_snippet() {
    let mut corpus = CompletionCorpus::new();
    corpus.ingest_text("file:///workspace/other.luma", "name: x\n", FileId(1));
    let items = run("", at(0, 0), &corpus).expect("items");
    assert_eq!(labels(&items), vec!["name", "let binding"]);
    assert_eq!(items[1].kind, CompletionItemKind::Snippet);
    assert_eq!(items[1].insert_text, "let ${1:name} = ${2:value}");
}

#[test]
fn lua_interpolation_offers_environment_names() {
    let items = run("v: ${p", at(0, 6), &CompletionCorpus::new()).expect("items");
    assert_eq!(labels(&items), vec!["profile"]);
    assert_eq!(items[0].insert_text, "rofile");
    assert_eq!(items[0].kind, CompletionItemKind::Variable);
}

#[test]
fn lua_interpolation_offers_let_names() {
    let mut corpus = CompletionCorpus::new();
    corpus.ingest_text(URI, "let port = 8080\n", FileId(0));
    assert_eq!(corpus.lets_list(), &vec!["port".to_owned()]);
    let items = run("v: ${po", at(0, 7), &corpus).expect("items");
    assert_eq!(labels(&items), vec!["port"]);
    assert_eq!(items[0].insert_text, "rt");
    assert_eq!(items[0].detail.as_deref(), Some("Local let binding"));
}

#[test]
fn disabled_completion_offers_nothing() {
    let mut config = LumalsConfig::default();
    config.completion.enabled = false;
    let folders: Vec<String> = Vec::new();
    let paths: Vec<String> = Vec::new();
    assert!(complete("a: t", at(0, 4), URI, &folders, &config, &CompletionCorpus::new(), &paths).is_none());
}

#[test]
fn position_past_the_text_offers_nothing() {
    assert!(run("a: t", at(3, 0), &CompletionCorpus::new()).is_none());
}

#[test]
fn position_inside_a_character_is_not_supported() {
    let config = LumalsConfig::default();
    assert!(!completion_position_supported("é", &config, at(0, 1)));
    assert!(completion_position_supported("é", &config, at(0, 2)));
}
