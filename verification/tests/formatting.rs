use lymals::formatting::{fallback_format_result, format_range, format_text};
use lymals::syntax::{FileId, ParserBackend, SourceSpan};

#[test]
fn preserves_crlf_and_block_contents() {
    let input = "script: |\r\n    local x = 1  \r\n    print(x)\r\nvalue:  ok \r\n";
    let formatted = fallback_format_result(input);

    assert_eq!(
        formatted.text,
        "script: |\r\n    local x = 1  \r\n    print(x)\r\nvalue: ok\r\n"
    );
}

#[test]
fn range_formatting_is_line_scoped() {
    let input = "root:\n   child:  one  \n   other: two\n";
    let edit = format_range(input, FileId(7), SourceSpan::new(FileId(7), 6, 23)).expect("expected edit");

    assert_eq!(edit.range.start, 6);
    assert_eq!(edit.text, "  child: one\n");
}

#[test]
fn normalizes_each_kind_of_line() {
    let input = "#comment\n@luma   0.1\nlet  a=  1\nlist:\n  -   x\nkey:value\n---\n";
    let formatted = fallback_format_result(input);
    assert_eq!(
        formatted.text,
        "# comment\n@luma 0.1\nlet a = 1\nlist:\n  - x\nkey: value\n---\n"
    );
    assert!(formatted.changed);
}

#[test]
fn formatted_text_is_unchanged_when_already_formatted() {
    let input = "root:\n  child: one\n";
    let formatted = fallback_format_result(input);
    assert_eq!(formatted.text, input);
    assert!(!formatted.changed);
    let again = fallback_format_result(&formatted.text);
    assert_eq!(again.text, formatted.text);
}

#[test]
fn every_backend_formats_the_same() {
    let input = "a:  1\n";
    let fallback = format_text(FileId(1), "x", ParserBackend::Fallback, input);
    let upstream = format_text(FileId(1), "x", ParserBackend::UpstreamLyma, input);
    assert_eq!(fallback, upstream);
    assert_eq!(fallback.text, "a: 1\n");
}

#[test]
fn range_formatting_refuses_bad_ranges() {
    let input = "a:  1\n";
    assert!(format_range(input, FileId(1), SourceSpan::new(FileId(2), 0, 1)).is_none());
    assert!(format_range(input, FileId(1), SourceSpan::new(FileId(1), 3, 1)).is_none());
    assert!(format_range(input, FileId(1), SourceSpan::new(FileId(1), 0, 99)).is_none());
    assert!(format_range("a: 1\n", FileId(1), SourceSpan::new(FileId(1), 0, 4)).is_none());
}

#[test]
fn lua_brace_blocks_are_kept() {
    let input = "code: x\nlua{\n   weird   \n}\nafter:  1\n";
    let formatted = fallback_format_result(input);
    assert_eq!(formatted.text, "code: x\nlua{\n   weird   \n}\nafter: 1\n");
}

#[test]
fn range_formatting_matches_the_whole_document() {
    let input = "root:\n   child:  one  \n   other: two\n";
    let whole = fallback_format_result(input).text;
    let edit = format_range(input, FileId(7), SourceSpan::new(FileId(7), 6, 23)).expect("expected edit");
    let before = &input[..edit.range.start];
    let after = &input[edit.range.end..];
    let whole_lines: Vec<&str> = whole.split_inclusive('\n').collect();
    assert_eq!(whole_lines[0], before);
    assert_eq!(whole_lines[1], edit.text);
    assert_eq!(whole_lines[2], "  other: two\n");
    assert_eq!(after, "   other: two\n");
}
