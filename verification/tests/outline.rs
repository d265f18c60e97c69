use lymals::outline::{build_document_symbols, DocumentSymbolNode, OutlineKind};
use lymals::parser::{parse, parse_fallback};
use lymals::syntax::{FileId, ParsedFile, SourceSpan};

fn outline(text: &str) -> Vec<DocumentSymbolNode> {
    let parsed = parse(FileId(0), "file:///workspace/main.luma", text);
    let ParsedFile::Fallback(file) = &parsed.file;
    build_document_symbols(&file.ast, &parsed.source)
}

fn names(nodes: &[DocumentSymbolNode]) -> Vec<&str> {
    nodes.iter().map(|n| n.name.as_str()).collect()
}

#[test]
fn outline_lists_directives_bindings_and_keys() {
    let text = "@import \"./shared.luma\" as shared\nlet port = 8080\nname: x\n";
    let symbols = outline(text);
    assert_eq!(names(&symbols), vec!["document1"]);
    assert_eq!(symbols[0].kind, OutlineKind::Module);
    let children = &symbols[0].children;
    assert_eq!(names(children), vec!["@import", "port", "name"]);

    let import = &children[0];
    assert_eq!(import.kind, OutlineKind::Namespace);
    assert_eq!(import.selection_span, SourceSpan::new(FileId(0), 0, 7));
    assert_eq!(names(&import.children), vec!["./shared.luma", "shared"]);
    assert_eq!(import.children[0].kind, OutlineKind::File);
    assert_eq!(import.children[0].detail.as_deref(), Some("@import"));
    assert_eq!(import.children[0].selection_span, SourceSpan::new(FileId(0), 9, 22));
    assert_eq!(import.children[1].kind, OutlineKind::Variable);

    let port = &children[1];
    assert_eq!(port.kind, OutlineKind::Variable);
    assert_eq!(port.selection_span, SourceSpan::new(FileId(0), 38, 42));
    assert!(port.children.is_empty());

    let key = &children[2];
    assert_eq!(key.kind, OutlineKind::Key);
    assert_eq!(key.selection_span, SourceSpan::new(FileId(0), 50, 54));
}

#[test]
fn outline_numbers_documents_and_sequence_items() {
    let symbols = outline("a: 1\n---\n- x\n- y\n");
    assert_eq!(names(&symbols), vec!["document1", "document2"]);
    let items = &symbols[1].children;
    assert_eq!(names(items), vec!["[0]", "[1]"]);
    assert!(items.iter().all(|item| item.kind == OutlineKind::Array && item.children.is_empty()));
    assert!(symbols[1].span.start <= symbols[1].selection_span.start);
    assert!(symbols[1].selection_span.end <= symbols[1].span.end);
}

fn span_contains(outer: SourceSpan, inner: SourceSpan) -> bool {
    outer.file_id == inner.file_id && outer.start <= inner.start && inner.end <= outer.end
}

fn assert_span_containment_recursively(symbol: &DocumentSymbolNode) {
    assert!(
        span_contains(symbol.span, symbol.selection_span),
        "symbol {:?} span {:?} does not contain selection_span {:?}",
        symbol.name,
        symbol.span,
        symbol.selection_span,
    );
    for child in &symbol.children {
        assert_span_containment_recursively(child);
    }
}

#[test]
fn document_root_symbol_span_always_contains_its_selection_span() {
    let text = "# comment\n---\nmessage: hello\n";
    let parsed = parse_fallback(FileId(1), "fixture.lyma", text);
    let ParsedFile::Fallback(file) = &parsed.file;

    let symbols = build_document_symbols(&file.ast, &parsed.source);
    assert!(!symbols.is_empty(), "expected at least one document symbol");

    for symbol in &symbols {
        assert_span_containment_recursively(symbol);
    }
}
