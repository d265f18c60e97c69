use lymals::ast::{AstFile, Directive, Document, DocumentItem, LetBinding};
use lymals::index::DocumentIndex;
use lymals::parser::parse_fallback;
use lymals::semantic::{split_directive_value, SemanticDocument};
use lymals::symbols::{DefinitionKind, PathSegment, SymbolPath};
use lymals::syntax::{FileId, ParsedFile, SourceSpan, SymbolKind};

#[test]
fn extracts_import_alias_and_let_definitions() {
    let file_id = FileId(0);
    let file = AstFile {
        span: SourceSpan::new(file_id, 0, 10),
        documents: vec![Document {
            span: SourceSpan::new(file_id, 0, 10),
            separator_span: None,
            items: vec![
                DocumentItem::Directive(Directive {
                    name: "@import".to_string(),
                    span: SourceSpan::new(file_id, 0, 10),
                    value: Some("\"shared.luma\" as shared".to_string()),
                }),
                DocumentItem::Let(LetBinding {
                    name: "env".to_string(),
                    span: SourceSpan::new(file_id, 11, 20),
                    value_span: None,
                }),
            ],
        }],
    };

    let semantic = SemanticDocument::from_ast(&file);
    let names = semantic
        .definitions
        .iter()
        .map(|definition| definition.name.as_str())
        .collect::<Vec<_>>();

    assert!(names.contains(&"shared.luma"));
    assert!(names.contains(&"shared"));
    assert!(names.contains(&"env"));
}

#[test]
fn definitions_follow_document_order_with_paths() {
    let doc = parse_fallback(FileId(0), "a.luma", "@use 'base' as b\nlet x = 2\nroot: 1\n");
    let ParsedFile::Fallback(file) = &doc.file;
    let semantic = SemanticDocument::from_ast(&file.ast);
    let described: Vec<(String, DefinitionKind, String, Option<String>)> = semantic
        .definitions
        .iter()
        .map(|d| (d.name.clone(), d.kind, d.path.to_text(), d.detail.clone()))
        .collect();
    assert_eq!(
        described,
        vec![
            ("document1".to_string(), DefinitionKind::DocumentRoot, "document[1]".to_string(), None),
            (
                "@use".to_string(),
                DefinitionKind::Directive,
                "document[1].@use".to_string(),
                Some("'base' as b".to_string())
            ),
            (
                "base".to_string(),
                DefinitionKind::Import,
                "document[1].@import(base)".to_string(),
                Some("@use".to_string())
            ),
            (
                "b".to_string(),
                DefinitionKind::Alias,
                "document[1].alias(b)".to_string(),
                Some("base".to_string())
            ),
            ("x".to_string(), DefinitionKind::Let, "document[1].$x".to_string(), Some("24..26".to_string())),
            ("root".to_string(), DefinitionKind::Key, "document[1].root".to_string(), None),
        ]
    );
}

#[test]
fn split_directive_value_handles_quotes_and_aliases() {
    assert_eq!(split_directive_value("  "), (None, None));
    assert_eq!(split_directive_value(" \"a.luma\" "), (Some("a.luma".to_string()), None));
    assert_eq!(
        split_directive_value("'x' as y as z"),
        (Some("'x' as y".to_string()), Some("z".to_string()))
    );
    assert_eq!(split_directive_value("\"q'"), (Some("\"q'".to_string()), None));
}

#[test]
fn symbol_paths_render_indexes_without_dots() {
    let path = SymbolPath::root(2)
        .child(PathSegment::Key("items".to_string()))
        .child(PathSegment::Index(3))
        .child(PathSegment::Tag("t".to_string()));
    assert_eq!(path.to_text(), "document[2].items[3].!t");
    assert_eq!(PathSegment::Import("x".to_string()).to_text(), "@import(x)");
    assert_eq!(SymbolPath::default().to_text(), "");
}

#[test]
fn document_index_groups_by_name_and_kind() {
    let doc = parse_fallback(FileId(0), "a.luma", "a: 1\n---\na: 2\nb: 3\n");
    let ParsedFile::Fallback(file) = &doc.file;
    let index = DocumentIndex::new(SemanticDocument::from_ast(&file.ast));
    assert_eq!(index.definitions().len(), 5);
    assert_eq!(index.symbols().len(), 5);
    assert_eq!(index.symbols()[0].kind, SymbolKind::Document);
    assert_eq!(index.symbols()[1].kind, SymbolKind::MappingKey);
    let named: Vec<usize> = index.by_name("a").iter().map(|d| d.span.start).collect();
    assert_eq!(named, vec![0, 9]);
    assert_eq!(index.by_kind(DefinitionKind::DocumentRoot).len(), 2);
    assert!(index.by_name("zzz").is_empty());
    assert!(DocumentIndex::default().definitions().is_empty());
}
