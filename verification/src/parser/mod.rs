//! Parsing entry points: the parsed form of a document and the parser behind it.
pub mod fallback;

use vstd::prelude::*;

use crate::diagnostics::Diagnostic;
use crate::formatting::{
    apply_line_ending_spec, contains_crlf, fallback_format_result, fallback_format_spec,
};
use crate::lexer::lexes;
use crate::parser::fallback::{parse_with_fallback, parsed_by_fallback};
use crate::syntax::{
    FileId, FormatResult, ParsedFile, ParsedRanges, ParserBackend, SourceText, Symbol, TextEdit,
    Token,
};
use crate::formatting::crlf_to_lf;
use crate::text::utf8;

verus! {

/// A document as the server keeps it after parsing.
#[derive(Debug, PartialEq, Eq)]
pub struct ParsedDocument {
    pub backend: ParserBackend,
    pub source: SourceText,
    pub file: ParsedFile,
    pub ranges: ParsedRanges,
    pub tokens: Option<Vec<Token>>,
    pub symbols: Option<Vec<Symbol>>,
    pub diagnostics: Vec<Diagnostic>,
}

impl ParsedDocument {
    /// An edit that replaces the whole text with `text`.
    pub fn full_document_edit(&self, text: String) -> (edit: TextEdit)
        ensures
            edit.range == (crate::syntax::SourceSpan {
                file_id: self.source.file_id,
                start: 0,
                end: self.source.bytes().len() as usize,
            }),
            edit.text == text,
    {
        TextEdit { range: self.source.full_span(), text }
    }
}

/// Parses a text with the parser of this build, the fallback parser.
pub fn parse(file_id: FileId, name: &str, text: &str) -> (doc: ParsedDocument)
    requires
        lexes(crlf_to_lf(utf8(text@), 0)),
        crlf_to_lf(utf8(text@), 0).len() <= isize::MAX,
    ensures
        parsed_by_fallback(doc, file_id, name@, text@),
{
    parse_with_fallback(file_id, name, text)
}

/// Parses a text with the fallback parser.
pub fn parse_fallback(file_id: FileId, name: &str, text: &str) -> (doc: ParsedDocument)
    requires
        lexes(crlf_to_lf(utf8(text@), 0)),
        crlf_to_lf(utf8(text@), 0).len() <= isize::MAX,
    ensures
        parsed_by_fallback(doc, file_id, name@, text@),
{
    parse_with_fallback(file_id, name, text)
}

/// Formats a parsed document's text; the fallback formatter always gives a result.
pub fn format_document(parsed: &ParsedDocument) -> (r: Option<FormatResult>)
    ensures
        r matches Some(f) && utf8(f.text@) == fallback_format_spec(parsed.source.bytes())
            && f.changed == (fallback_format_spec(parsed.source.bytes()) != apply_line_ending_spec(
            parsed.source.bytes(),
            contains_crlf(parsed.source.bytes()),
        )),
{
    Some(fallback_format_result(parsed.source.as_str()))
}

/// The formatting of a document as one edit over the whole text.
pub fn format_text_edits(parsed: &ParsedDocument) -> (r: Option<Vec<TextEdit>>)
    ensures
        r matches Some(edits) && edits@.len() == 1 && edits@[0].range == (crate::syntax::SourceSpan {
            file_id: parsed.source.file_id,
            start: 0,
            end: parsed.source.bytes().len() as usize,
        }) && utf8(edits@[0].text@) == fallback_format_spec(parsed.source.bytes()),
{
    match format_document(parsed) {
        Some(formatted) => {
            let mut edits: Vec<TextEdit> = Vec::new();
            edits.push(parsed.full_document_edit(formatted.text));
            Some(edits)
        },
        None => None,
    }
}

/// The parser of this build.
pub fn backend() -> (b: ParserBackend)
    ensures
        b == ParserBackend::Fallback,
{
    ParserBackend::Fallback
}

} // verus!
