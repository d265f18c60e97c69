use lymals::diagnostics::{collect, describe_span, Diagnostic, DiagnosticSeverity, DiagnosticTag};
use lymals::parser::parse_fallback;
use lymals::syntax::{FileId, SourceSpan, SourceText};

fn codes(text: &str) -> Vec<String> {
    let doc = parse_fallback(FileId(1), "t.luma", text);
    collect(&doc).into_iter().map(|d| d.code).collect()
}

#[test]
fn duplicate_keys_point_at_the_earlier_entry() {
    let doc = parse_fallback(FileId(1), "t.luma", "a: 1\na: 2\n");
    let diagnostics = collect(&doc);
    assert_eq!(diagnostics.len(), 1);
    let d = &diagnostics[0];
    assert_eq!(d.code, "L002");
    assert_eq!(d.severity, DiagnosticSeverity::Warning);
    assert_eq!(d.message, "duplicate mapping key 'a'");
    assert_eq!(d.primary_span, Some(SourceSpan::new(FileId(1), 5, 6)));
    assert_eq!(d.related_spans[0].span, SourceSpan::new(FileId(1), 0, 1));
    assert_eq!(d.tags, vec![DiagnosticTag::Unnecessary]);
    assert_eq!(d.notes, vec!["line 2 shadows the earlier 'a' entry".to_string()]);
}

#[test]
fn indentation_checks() {
    assert_eq!(codes("a:\n\tb: 1\n"), vec!["L003"]);
    assert_eq!(codes("a:\n   b: 1\n"), vec!["L004", "L005"]);
    assert_eq!(codes("a:\n  b:\n    c: 1\n   d: 2\n"), vec!["L004", "L006"]);
    assert_eq!(codes("a: 1\n  b: 2\n"), vec!["L005"]);
    assert!(codes("a:\n  b: 1\nc: 2\n").is_empty());
}

#[test]
fn directive_checks() {
    assert_eq!(codes("@foo\n"), vec!["L009"]);
    assert_eq!(codes("@\n"), vec!["L007"]);
    assert_eq!(codes("@bad!\n"), vec!["L007"]);
    assert_eq!(codes("@import\n"), vec!["L008"]);
    assert_eq!(codes("@import https://example.com/x.luma\n"), vec!["L010"]);
    assert!(codes("@import file:///workspace/b.luma\n").is_empty());
    assert_eq!(codes("@import /etc/x.luma\n"), vec!["L012"]);
    assert_eq!(codes("@include ../x.luma\n"), vec!["L013"]);
    assert!(codes("@import \"shared.luma\"\n@luma 0.1\n").is_empty());
}

#[test]
fn value_checks() {
    assert_eq!(codes("let a as b = 1\n"), vec!["L014"]);
    assert_eq!(codes("a: \"open\n"), vec!["L015"]);
    assert!(codes("a: \"closed \\\" quote\"\n").is_empty());
    assert_eq!(codes("a: lua{ x\n"), vec!["L016"]);
    assert_eq!(codes("```lua\nx\n"), vec!["L017"]);
    assert_eq!(codes("a\0\n"), vec!["L001"]);
}

#[test]
fn validation_messages_and_spans() {
    let doc = parse_fallback(FileId(2), "t.luma", "@import https://example.com/x.luma\n");
    let diagnostics = collect(&doc);
    let d: &Diagnostic = &diagnostics[0];
    assert_eq!(d.message, "@import only allows relative paths or file: URIs");
    assert_eq!(d.source, "lumals.validation");
    assert_eq!(d.primary_span, Some(SourceSpan::new(FileId(2), 8, 34)));
}

#[test]
fn describes_spans_as_line_and_column() {
    let source = SourceText::new(FileId(1), "t", "ab\ncd\n");
    assert_eq!(describe_span(&source, SourceSpan::new(FileId(1), 4, 5)), Some("2:2".to_string()));
    assert_eq!(describe_span(&source, SourceSpan::new(FileId(1), 3, 3)), Some("2:1".to_string()));
    assert_eq!(describe_span(&source, SourceSpan::new(FileId(2), 0, 1)), None);
    assert_eq!(describe_span(&source, SourceSpan::new(FileId(1), 0, 99)), None);
    let d = Diagnostic::new("X1", DiagnosticSeverity::Info, "m").with_source("s");
    assert_eq!(d.source, "s");
    assert_eq!(d.code, "X1");
}
