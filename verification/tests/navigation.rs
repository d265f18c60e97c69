use lymals::navigation::{identifier_path_at_span, implementation_candidates, ImplementationTarget};
use lymals::parser::parse_fallback;
use lymals::syntax::{FileId, ParsedFile, SourceSpan, SourceText};

const TEXT: &str = "@import \"./shared.luma\" as shared\nlet x = ${shared.net.port}\nkey: ${shared.a}\n";

fn targets_at(offset: usize) -> Vec<ImplementationTarget> {
    let doc = parse_fallback(FileId(0), "main.luma", TEXT);
    let ParsedFile::Fallback(file) = &doc.file;
    implementation_candidates(&file.ast.documents, offset, &doc.source)
}

fn reference(parts: &[&str]) -> ImplementationTarget {
    ImplementationTarget::Reference(lymals::navigation::IdentifierPath {
        segments: parts.iter().map(|s| s.to_string()).collect(),
    })
}

#[test]
fn import_target_and_alias_lead_to_the_imported_file() {
    assert_eq!(targets_at(10), vec![ImplementationTarget::Import("./shared.luma".to_string())]);
    assert_eq!(targets_at(28), vec![ImplementationTarget::Import("./shared.luma".to_string())]);
    assert_eq!(targets_at(3), Vec::new());
}

#[test]
fn references_in_let_values_and_lua_scalars() {
    assert_eq!(targets_at(52), vec![reference(&["shared", "net", "port"])]);
    assert_eq!(targets_at(70), vec![reference(&["shared", "a"])]);
    assert_eq!(targets_at(61), Vec::new());
}

#[test]
fn identifier_paths_skip_empty_segments() {
    let source = SourceText::new(FileId(0), "x", "${a..b}");
    let (span, path) = identifier_path_at_span(SourceSpan::new(FileId(0), 0, 7), 2, &source).expect("path");
    assert_eq!((span.start, span.end), (2, 6));
    assert_eq!(path.segments, vec!["a".to_string(), "b".to_string()]);
    assert!(identifier_path_at_span(SourceSpan::new(FileId(0), 0, 7), 0, &source).is_none());
}
