//! Source files, spans, tokens and the shared syntax vocabulary.
use vstd::prelude::*;

use crate::ast::AstFile;
use crate::position::{
    compute_line_starts, lemma_newlines_bounds, line_of, line_start_of, line_starts_upto,
    newlines_before,
};
use crate::text::{char_boundary, utf8};

verus! {

#[derive(Debug, Clone, Copy, PartialEq, Eq, PartialOrd, Ord, Hash, Default, Structural)]
pub struct FileId(pub u32);

#[derive(Debug, Clone, Copy, PartialEq, Eq, PartialOrd, Ord, Hash, Structural)]
pub enum ParserBackend {
    Fallback,
    UpstreamLyma,
}

/// A byte range `[start, end)` of one file.
#[derive(Debug, Clone, Copy, PartialEq, Eq, PartialOrd, Ord, Hash, Structural)]
pub struct SourceSpan {
    pub file_id: FileId,
    pub start: usize,
    pub end: usize,
}

impl SourceSpan {
    pub fn new(file_id: FileId, start: usize, end: usize) -> (span: Self)
        ensures
            span == (SourceSpan { file_id, start, end }),
    {
        SourceSpan { file_id, start, end }
    }

    /// Byte length, zero for an inverted span.
    pub fn len(self) -> (n: usize)
        ensures
            n == (if self.end >= self.start {
                self.end - self.start
            } else {
                0
            }),
    {
        if self.end >= self.start {
            self.end - self.start
        } else {
            0
        }
    }

    pub fn is_empty(self) -> (r: bool)
        ensures
            r == (self.start >= self.end),
    {
        self.start >= self.end
    }
}

/// One-based line and byte column.
#[derive(Debug, Clone, Copy, PartialEq, Eq, PartialOrd, Ord, Hash, Structural)]
pub struct SourcePosition {
    pub line: usize,
    pub column: usize,
}

/// The text of one file together with its line starts.
#[derive(Debug, Clone, PartialEq, Eq)]
pub struct SourceText {
    pub file_id: FileId,
    pub name: String,
    pub text: String,
    pub line_starts: Vec<usize>,
}

impl SourceText {
    /// UTF-8 bytes of the text.
    pub open spec fn bytes(&self) -> Seq<u8> {
        utf8(self.text@)
    }

    /// The cached line starts belong to the text.
    pub open spec fn wf(&self) -> bool {
        self.line_starts@ == line_starts_upto(self.bytes(), self.bytes().len() as int)
    }

    pub fn new(file_id: FileId, name: &str, text: &str) -> (source: Self)
        ensures
            source.wf(),
            source.file_id == file_id,
            source.name@ == name@,
            source.text@ == text@,
    {
        let line_starts = compute_line_starts(text.as_bytes());
        SourceText {
            file_id,
            name: name.to_owned(),
            text: text.to_owned(),
            line_starts,
        }
    }

    pub fn as_str(&self) -> (s: &str)
        ensures
            s@ == self.text@,
    {
        self.text.as_str()
    }

    pub fn full_span(&self) -> (span: SourceSpan)
        ensures
            span == (SourceSpan { file_id: self.file_id, start: 0, end: self.bytes().len() as usize }),
    {
        SourceSpan::new(self.file_id, 0, self.text.as_str().len())
    }

    /// One-based line and column of a byte offset, clamped to the end of the text.
    pub fn position(&self, offset: usize) -> (p: SourcePosition)
        requires
            self.wf(),
            self.bytes().len() < usize::MAX,
        ensures
            ({
                let b = self.bytes();
                let c = if offset <= b.len() {
                    offset as int
                } else {
                    b.len() as int
                };
                p == SourcePosition {
                    line: (newlines_before(b, c) + 1) as usize,
                    column: (c - line_start_of(b, c) + 1) as usize,
                }
            }),
    {
        let b = self.text.as_str().as_bytes();
        let clamped = if offset <= b.len() {
            offset
        } else {
            b.len()
        };
        let line_index = line_of(&self.line_starts, Ghost(b@), clamped);
        let line_start = self.line_starts[line_index];
        proof {
            lemma_newlines_bounds(b@, clamped as int);
        }
        SourcePosition { line: line_index + 1, column: clamped - line_start + 1 }
    }

    /// The text of a span of this file; `None` for another file, an inverted or
    /// out-of-bounds span, or one that splits a character.
    pub fn slice(&self, span: SourceSpan) -> (r: Option<&str>)
        ensures
            ({
                let b = self.bytes();
                if span.file_id == self.file_id && span.start <= span.end && span.end <= b.len()
                    && char_boundary(b, span.start as int) && char_boundary(b, span.end as int) {
                    r matches Some(s) && utf8(s@) == b.subrange(span.start as int, span.end as int)
                } else {
                    r is None
                }
            }),
    {
        let text = self.text.as_str();
        let b = text.as_bytes();
        if span.file_id != self.file_id || span.start > span.end || span.end > b.len() {
            return None;
        }
        if !is_boundary(b, span.start) || !is_boundary(b, span.end) {
            return None;
        }
        Some(str_slice(text, span.start, span.end))
    }
}

/// `str::is_char_boundary` on the bytes of a string.
pub fn is_boundary(b: &[u8], i: usize) -> (r: bool)
    ensures
        r == (i <= b@.len() && char_boundary(b@, i as int)),
{
    i == 0 || i == b.len() || (i < b.len() && !(0x80 <= b[i] && b[i] <= 0xbf))
}

/// Wraps the indexing `&s[start..end]` of a string at two character boundaries.
#[verifier::external_body]
pub fn str_slice(s: &str, start: usize, end: usize) -> (r: &str)
    requires
        start <= end <= utf8(s@).len(),
        char_boundary(utf8(s@), start as int),
        char_boundary(utf8(s@), end as int),
    ensures
        utf8(r@) == utf8(s@).subrange(start as int, end as int),
{
    &s[start..end]
}

#[derive(Debug, Clone, PartialEq, Eq)]
pub struct ParsedRanges {
    pub file: SourceSpan,
    pub documents: Vec<SourceSpan>,
}

#[derive(Debug, PartialEq, Eq)]
pub struct FallbackParsedFile {
    pub span: SourceSpan,
    pub document_spans: Vec<SourceSpan>,
    pub ast: AstFile,
}

/// A parsed file; this build carries the fallback parser's result.
#[derive(Debug, PartialEq, Eq)]
pub enum ParsedFile {
    Fallback(FallbackParsedFile),
}

impl ParsedFile {
    pub fn fallback(span: SourceSpan, document_spans: Vec<SourceSpan>, ast: AstFile) -> (file: Self)
        ensures
            file == ParsedFile::Fallback(FallbackParsedFile { span, document_spans, ast }),
    {
        ParsedFile::Fallback(FallbackParsedFile { span, document_spans, ast })
    }

    pub fn backend(&self) -> (backend: ParserBackend)
        ensures
            backend == ParserBackend::Fallback,
    {
        match self {
            ParsedFile::Fallback(_) => ParserBackend::Fallback,
        }
    }

    pub fn span(&self) -> (span: SourceSpan)
        ensures
            match self {
                ParsedFile::Fallback(file) => span == file.span,
            },
    {
        match self {
            ParsedFile::Fallback(file) => file.span,
        }
    }

    pub fn document_spans(&self) -> (spans: Vec<SourceSpan>)
        ensures
            match self {
                ParsedFile::Fallback(file) => spans@ == file.document_spans@,
            },
    {
        match self {
            ParsedFile::Fallback(file) => file.document_spans.clone(),
        }
    }
}

#[derive(Debug, Clone, Copy, PartialEq, Eq, PartialOrd, Ord, Hash, Structural)]
pub enum TokenKind {
    Identifier,
    DirectiveName,
    TagName,
    Number,
    String,
    PlainString,
    Comment,
    DocumentSeparator,
    DocumentTerminator,
    BlockHeader,
    Colon,
    Dash,
    Spread,
    Equals,
    LeftBracket,
    RightBracket,
    LeftBrace,
    RightBrace,
    KeywordLet,
    KeywordAs,
    KeywordIn,
    LineBreak,
    EndOfFile,
    Error,
    Unknown,
}

#[derive(Debug, Clone, PartialEq, Eq, Hash)]
pub struct Token {
    pub kind: TokenKind,
    pub lexeme: String,
    pub span: SourceSpan,
}

#[derive(Debug, Clone, Copy, PartialEq, Eq, PartialOrd, Ord, Hash, Structural)]
pub enum SymbolKind {
    Document,
    Directive,
    Variable,
    MappingKey,
    Tag,
}

#[derive(Debug, Clone, PartialEq, Eq, Hash)]
pub struct Symbol {
    pub name: String,
    pub kind: SymbolKind,
    pub span: SourceSpan,
    pub selection_span: SourceSpan,
}

#[derive(Debug, Clone, PartialEq, Eq)]
pub struct FormatResult {
    pub text: String,
    pub changed: bool,
}

#[derive(Debug, Clone, PartialEq, Eq)]
pub struct TextEdit {
    pub range: SourceSpan,
    pub text: String,
}

} // verus!
