use lymals::index::WorkspaceIndex;
use lymals::parser::parse_fallback;
use lymals::semantic::SemanticDocument;
use lymals::syntax::{FileId, ParsedFile};

fn semantic(text: &str) -> SemanticDocument {
    let parsed = parse_fallback(FileId(0), "file:///x.luma", text);
    let ParsedFile::Fallback(file) = &parsed.file;
    SemanticDocument::from_ast(&file.ast)
}

#[test]
fn definitions_named_follow_the_order_of_uris() {
    let mut index = WorkspaceIndex::new();
    index.upsert("file:///b.luma".to_owned(), semantic("port: 2\n"));
    index.upsert_document("file:///a.luma".to_owned(), "port: 1\n".to_owned(), semantic("port: 1\n"), None);
    let found = index.definitions_named("port");
    let uris: Vec<&str> = found.iter().map(|d| d.uri.as_str()).collect();
    assert_eq!(uris, vec!["file:///a.luma", "file:///b.luma"]);
    assert!(index.document("file:///a.luma").is_some());
    assert!(index.document("file:///c.luma").is_none());
}

#[test]
fn invalidation_removes_documents_and_counts() {
    let mut index = WorkspaceIndex::new();
    index.upsert("file:///a.luma".to_owned(), semantic("a: 1\n"));
    index.upsert("file:///a.luma".to_owned(), semantic("b: 1\n"));
    assert_eq!(index.definitions_named("a").len(), 0);
    assert_eq!(index.definitions_named("b").len(), 1);
    assert!(index.invalidate("file:///a.luma").is_some());
    assert!(index.invalidate("file:///a.luma").is_none());
    assert_eq!(index.invalidations(), 1);
    index.upsert("file:///x.luma".to_owned(), semantic("a: 1\n"));
    index.upsert("file:///y.luma".to_owned(), semantic("a: 1\n"));
    let uris = vec!["file:///x.luma".to_owned(), "file:///z.luma".to_owned(), "file:///y.luma".to_owned()];
    assert_eq!(index.invalidate_many(&uris), 2);
    assert_eq!(index.invalidations(), 3);
    assert!(index.definitions_named("a").is_empty());
}
