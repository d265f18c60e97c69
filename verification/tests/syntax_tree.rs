use lymals::parser::parse_fallback;
use lymals::syntax::FileId;
use lymals::syntax_tree::render_syntax_tree;

fn tree(text: &str) -> String {
    let doc = parse_fallback(FileId(0), "tree.luma", text);
    render_syntax_tree(&doc.source, &doc.file)
}

#[test]
fn renders_mapping_with_scalar_value() {
    assert_eq!(
        tree("a: 1\n"),
        "File 1:1-2:1\n  Document[0] 1:1-1:5\n    Mapping 1:1-1:5\n      Key a 1:1-1:2\n        Scalar Number 1:4-1:5\n"
    );
}

#[test]
fn renders_sequence_items() {
    assert_eq!(
        tree("- x\n- 2\n"),
        "File 1:1-3:1\n  Document[0] 1:1-2:4\n    Sequence 1:1-2:4\n      Item 1:1-1:4\n        Scalar Plain 1:3-1:4\n      Item 2:1-2:4\n        Scalar Number 2:3-2:4\n"
    );
}

#[test]
fn renders_each_document_with_its_index() {
    assert_eq!(
        tree("@luma 0.1\n---\n# c\n"),
        "File 1:1-4:1\n  Document[0] 1:1-1:10\n    Directive @luma 1:1-1:10\n  Document[1] 3:1-3:4\n    Comment 3:1-3:4\n"
    );
}
