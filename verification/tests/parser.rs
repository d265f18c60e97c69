use lymals::ast::{DocumentItem, Node, ScalarKind};
use lymals::parser::{backend, format_text_edits, parse, parse_fallback};
use lymals::syntax::{FileId, ParsedFile, ParserBackend, SymbolKind};

const SAMPLE: &str = "@luma 0.1\n# note\nlet x = 1\nroot:\n  child: 1\n---\n- a\n- b\n";

#[test]
fn splits_documents_and_reads_items() {
    let doc = parse_fallback(FileId(1), "a.luma", SAMPLE);
    assert_eq!(doc.backend, ParserBackend::Fallback);
    assert!(doc.diagnostics.is_empty());
    let ParsedFile::Fallback(file) = &doc.file;
    assert_eq!(file.ast.documents.len(), 2);
    assert_eq!(doc.ranges.documents.len(), 2);
    let first = &file.ast.documents[0];
    assert_eq!(first.items.len(), 5);
    match &first.items[0] {
        DocumentItem::Directive(d) => {
            assert_eq!(d.name, "@luma");
            assert_eq!(d.value.as_deref(), Some("0.1"));
        }
        other => panic!("unexpected {other:?}"),
    }
    match &first.items[1] {
        DocumentItem::Comment(c) => assert_eq!(c.text, "note"),
        other => panic!("unexpected {other:?}"),
    }
    match &first.items[2] {
        DocumentItem::Let(l) => {
            assert_eq!(l.name, "x");
            assert_eq!(l.value_span.map(|s| (s.start, s.end)), Some((24, 26)));
        }
        other => panic!("unexpected {other:?}"),
    }
    match &first.items[4] {
        DocumentItem::Node(Node::Mapping(m)) => {
            assert_eq!(m.entries[0].key, "child");
            match m.entries[0].value.as_deref() {
                Some(Node::Scalar(s)) => {
                    assert_eq!(s.kind, ScalarKind::Number);
                    assert_eq!(s.text, "1");
                }
                other => panic!("unexpected {other:?}"),
            }
        }
        other => panic!("unexpected {other:?}"),
    }
    let second = &file.ast.documents[1];
    assert!(second.separator_span.is_some());
    match &second.items[0] {
        DocumentItem::Node(Node::Sequence(s)) => assert_eq!(s.items.len(), 2),
        other => panic!("unexpected {other:?}"),
    }
}

#[test]
fn extracts_symbols_in_document_order() {
    let doc = parse(FileId(1), "a.luma", SAMPLE);
    let symbols = doc.symbols.expect("symbols");
    let names: Vec<_> = symbols.iter().map(|s| (s.name.as_str(), s.kind)).collect();
    assert_eq!(
        names,
        vec![
            ("document1", SymbolKind::Document),
            ("@luma", SymbolKind::Directive),
            ("x", SymbolKind::Variable),
            ("root", SymbolKind::MappingKey),
            ("child", SymbolKind::MappingKey),
            ("document2", SymbolKind::Document),
        ]
    );
    assert_eq!(backend(), ParserBackend::Fallback);
}

#[test]
fn reports_parser_errors() {
    let doc = parse_fallback(FileId(1), "a.luma", "let x\nblock: |\n");
    let codes: Vec<_> = doc.diagnostics.iter().map(|d| d.code.as_str()).collect();
    assert_eq!(codes, vec!["F001", "F003"]);
    assert!(doc.diagnostics.iter().all(|d| d.source == "lumals.parser"));
}

#[test]
fn normalizes_crlf_and_keeps_tokens() {
    let doc = parse_fallback(FileId(3), "a.luma", "a: 1\r\nb: 2\r\n");
    assert_eq!(doc.source.as_str(), "a: 1\nb: 2\n");
    let tokens = doc.tokens.expect("tokens");
    assert!(!tokens.is_empty());
    let edits = format_text_edits(&parse_fallback(FileId(3), "a.luma", "a:  1\n")).unwrap();
    assert_eq!(edits.len(), 1);
    assert_eq!(edits[0].text, "a: 1\n");
}

#[test]
fn empty_text_has_one_empty_document() {
    let doc = parse_fallback(FileId(1), "e.luma", "");
    let ParsedFile::Fallback(file) = &doc.file;
    assert_eq!(file.ast.documents.len(), 1);
    assert!(file.ast.documents[0].items.is_empty());
    assert_eq!(doc.symbols.as_ref().map(|s| s.len()), Some(1));
}

#[test]
fn scalar_kinds_follow_their_text() {
    let doc = parse_fallback(
        FileId(1),
        "k.luma",
        "a: ${x}\nb: lua{ y }\nc: \"s\"\nd: -1.5e3\ne: inf\nf: plain\n",
    );
    let ParsedFile::Fallback(file) = &doc.file;
    let kinds: Vec<_> = match &file.ast.documents[0].items[0] {
        DocumentItem::Node(Node::Mapping(m)) => m
            .entries
            .iter()
            .map(|e| match e.value.as_deref() {
                Some(Node::Scalar(s)) => s.kind,
                other => panic!("unexpected {other:?}"),
            })
            .collect(),
        other => panic!("unexpected {other:?}"),
    };
    assert_eq!(
        kinds,
        vec![
            ScalarKind::LuaExpression,
            ScalarKind::LuaBlock,
            ScalarKind::String,
            ScalarKind::Number,
            ScalarKind::Number,
            ScalarKind::Plain,
        ]
    );
}

#[test]
fn lexable_texts_are_recognised() {
    assert!(lymals::lexer::text_lexes("a: 1\n"));
    assert!(!lymals::lexer::text_lexes("café: 1\n"));
    assert!(lymals::lexer::text_lexes("key: \"café\"\n"));
}
