//! Named definitions of a document and the paths that locate them.
use vstd::prelude::*;
use vstd::utf8::valid_utf8;

use crate::parser::fallback::{decimal, lemma_decimal_ascii, push_decimal};
use crate::syntax::{SourceSpan, Symbol, SymbolKind};
use crate::text::{bytes_to_string, lemma_ascii_valid, lemma_str_valid, push_ascii, push_text, utf8};

verus! {

broadcast use vstd::utf8::valid_utf8_concat;

#[derive(Debug, Clone, Copy, PartialEq, Eq, PartialOrd, Ord, Hash, Structural)]
pub enum DefinitionKind {
    DocumentRoot,
    Directive,
    Import,
    Alias,
    Let,
    Key,
    Tag,
}

#[derive(Debug, Clone, PartialEq, Eq, Hash)]
pub enum PathSegment {
    Document(usize),
    Key(String),
    Index(usize),
    Directive(String),
    Import(String),
    Alias(String),
    Let(String),
    Tag(String),
}

/// A path segment with its texts as UTF-8 bytes.
pub enum SegV {
    Document(nat),
    Key(Seq<u8>),
    Index(nat),
    Directive(Seq<u8>),
    Import(Seq<u8>),
    Alias(Seq<u8>),
    Let(Seq<u8>),
    Tag(Seq<u8>),
}

impl PathSegment {
    pub open spec fn view_seg(&self) -> SegV {
        match self {
            PathSegment::Document(i) => SegV::Document(*i as nat),
            PathSegment::Key(s) => SegV::Key(utf8(s@)),
            PathSegment::Index(i) => SegV::Index(*i as nat),
            PathSegment::Directive(s) => SegV::Directive(utf8(s@)),
            PathSegment::Import(s) => SegV::Import(utf8(s@)),
            PathSegment::Alias(s) => SegV::Alias(utf8(s@)),
            PathSegment::Let(s) => SegV::Let(utf8(s@)),
            PathSegment::Tag(s) => SegV::Tag(utf8(s@)),
        }
    }
}

pub open spec fn lit(s: &str) -> Seq<u8> {
    utf8(s@)
}

/// How a segment is written: `document[i]`, the key, `[i]`, the directive's name,
/// `@import(target)`, `alias(name)`, `$name` or `!name`.
pub open spec fn seg_text(s: SegV) -> Seq<u8> {
    match s {
        SegV::Document(i) => lit("document[") + decimal(i) + lit("]"),
        SegV::Key(k) => k,
        SegV::Index(i) => lit("[") + decimal(i) + lit("]"),
        SegV::Directive(n) => n,
        SegV::Import(t) => lit("@import(") + t + lit(")"),
        SegV::Alias(n) => lit("alias(") + n + lit(")"),
        SegV::Let(n) => lit("$") + n,
        SegV::Tag(n) => lit("!") + n,
    }
}

/// The first `k` segments written one after the other, joined by dots except before an index.
pub open spec fn path_text(segs: Seq<SegV>, k: int) -> Seq<u8>
    decreases k,
{
    if k <= 0 {
        seq![]
    } else {
        let s = segs[k - 1];
        path_text(segs, k - 1) + if s is Index || k - 1 == 0 {
            seg_text(s)
        } else {
            seq![0x2eu8] + seg_text(s)
        }
    }
}

fn push_lit(out: &mut Vec<u8>, s: &str)
    requires
        valid_utf8(old(out)@),
    ensures
        final(out)@ == old(out)@ + lit(s),
        valid_utf8(final(out)@),
{
    push_text(out, s);
}

fn push_number(out: &mut Vec<u8>, n: usize)
    requires
        valid_utf8(old(out)@),
    ensures
        final(out)@ == old(out)@ + decimal(n as nat),
        valid_utf8(final(out)@),
{
    push_decimal(out, n);
    proof {
        lemma_decimal_ascii(n as nat);
        lemma_ascii_valid(decimal(n as nat));
    }
}

impl PathSegment {
    /// A copy with the same texts.
    pub fn duplicate(&self) -> (s: PathSegment)
        ensures
            s.view_seg() == self.view_seg(),
    {
        match self {
            PathSegment::Document(i) => PathSegment::Document(*i),
            PathSegment::Key(t) => PathSegment::Key(t.clone()),
            PathSegment::Index(i) => PathSegment::Index(*i),
            PathSegment::Directive(t) => PathSegment::Directive(t.clone()),
            PathSegment::Import(t) => PathSegment::Import(t.clone()),
            PathSegment::Alias(t) => PathSegment::Alias(t.clone()),
            PathSegment::Let(t) => PathSegment::Let(t.clone()),
            PathSegment::Tag(t) => PathSegment::Tag(t.clone()),
        }
    }

    fn push_to(&self, out: &mut Vec<u8>)
        requires
            valid_utf8(old(out)@),
        ensures
            final(out)@ == old(out)@ + seg_text(self.view_seg()),
            valid_utf8(final(out)@),
    {
        let ghost before = out@;
        match self {
            PathSegment::Document(i) => {
                push_lit(out, "document[");
                push_number(out, *i);
                push_lit(out, "]");
            },
            PathSegment::Key(t) => push_text(out, t.as_str()),
            PathSegment::Index(i) => {
                push_lit(out, "[");
                push_number(out, *i);
                push_lit(out, "]");
            },
            PathSegment::Directive(t) => push_text(out, t.as_str()),
            PathSegment::Import(t) => {
                push_lit(out, "@import(");
                push_text(out, t.as_str());
                push_lit(out, ")");
            },
            PathSegment::Alias(t) => {
                push_lit(out, "alias(");
                push_text(out, t.as_str());
                push_lit(out, ")");
            },
            PathSegment::Let(t) => {
                push_lit(out, "$");
                push_text(out, t.as_str());
            },
            PathSegment::Tag(t) => {
                push_lit(out, "!");
                push_text(out, t.as_str());
            },
        }
        proof {
            assert(out@ =~= before + seg_text(self.view_seg()));
        }
    }

    /// The segment as text.
    pub fn to_text(&self) -> (text: String)
        ensures
            utf8(text@) == seg_text(self.view_seg()),
    {
        let mut out: Vec<u8> = Vec::new();
        proof {
            lemma_ascii_valid(out@);
        }
        self.push_to(&mut out);
        proof {
            assert(out@ =~= seg_text(self.view_seg()));
        }
        bytes_to_string(out)
    }
}

/// Where a definition sits: its document, then keys, indexes and names down to it.
#[derive(Debug, Clone, PartialEq, Eq, Hash)]
pub struct SymbolPath {
    pub segments: Vec<PathSegment>,
}

impl SymbolPath {
    pub open spec fn view_path(&self) -> Seq<SegV> {
        self.segments@.map_values(|s: PathSegment| s.view_seg())
    }

    /// The path of a document's root.
    pub fn root(document_index: usize) -> (path: Self)
        ensures
            path.view_path() == seq![SegV::Document(document_index as nat)],
    {
        let mut segments: Vec<PathSegment> = Vec::new();
        segments.push(PathSegment::Document(document_index));
        let path = SymbolPath { segments };
        proof {
            assert(path.view_path() =~= seq![SegV::Document(document_index as nat)]);
        }
        path
    }

    /// This path with one more segment at its end.
    pub fn child(&self, segment: PathSegment) -> (path: Self)
        ensures
            path.view_path() == self.view_path().push(segment.view_seg()),
    {
        let mut segments: Vec<PathSegment> = Vec::new();
        let n = self.segments.len();
        let mut i: usize = 0;
        while i < n
            invariant
                i <= n,
                n == self.segments@.len(),
                segments@.map_values(|s: PathSegment| s.view_seg()) =~= self.view_path().subrange(
                    0,
                    i as int,
                ),
            decreases n - i,
        {
            let ghost prev = segments@;
            segments.push(self.segments[i].duplicate());
            proof {
                assert(segments@.map_values(|s: PathSegment| s.view_seg()) =~= prev.map_values(
                    |s: PathSegment| s.view_seg(),
                ).push(self.segments@[i as int].view_seg()));
            }
            i = i + 1;
        }
        let ghost prev = segments@;
        segments.push(segment);
        let path = SymbolPath { segments };
        proof {
            assert(path.view_path() =~= prev.map_values(|s: PathSegment| s.view_seg()).push(
                segment.view_seg(),
            ));
            assert(self.view_path().subrange(0, n as int) =~= self.view_path());
        }
        path
    }

    /// The path as text, such as `document[1].root.items[0]`.
    pub fn to_text(&self) -> (text: String)
        ensures
            utf8(text@) == path_text(self.view_path(), self.view_path().len() as int),
    {
        let ghost segs = self.view_path();
        let mut out: Vec<u8> = Vec::new();
        proof {
            lemma_ascii_valid(out@);
        }
        let n = self.segments.len();
        let mut i: usize = 0;
        while i < n
            invariant
                i <= n,
                n == self.segments@.len(),
                segs == self.view_path(),
                valid_utf8(out@),
                out@ == path_text(segs, i as int),
            decreases n - i,
        {
            let ghost prev = out@;
            let segment = &self.segments[i];
            let is_index = match segment {
                PathSegment::Index(_) => true,
                _ => false,
            };
            if !is_index && i != 0 {
                push_ascii(&mut out, 0x2e);
            }
            segment.push_to(&mut out);
            proof {
                assert(segs[i as int] == segment.view_seg());
                assert(out@ =~= path_text(segs, i + 1));
            }
            i = i + 1;
        }
        bytes_to_string(out)
    }
}

impl SymbolPath {
    /// A copy with the same segments.
    pub fn duplicate(&self) -> (path: Self)
        ensures
            path.view_path() == self.view_path(),
    {
        let mut segments: Vec<PathSegment> = Vec::new();
        let n = self.segments.len();
        let mut i: usize = 0;
        while i < n
            invariant
                i <= n,
                n == self.segments@.len(),
                segments@.map_values(|s: PathSegment| s.view_seg()) =~= self.view_path().subrange(0, i as int),
            decreases n - i,
        {
            let ghost prev = segments@;
            segments.push(self.segments[i].duplicate());
            proof {
                assert(segments@.map_values(|s: PathSegment| s.view_seg()) =~= prev.map_values(
                    |s: PathSegment| s.view_seg(),
                ).push(self.segments@[i as int].view_seg()));
            }
            i = i + 1;
        }
        let path = SymbolPath { segments };
        proof {
            assert(self.view_path().subrange(0, n as int) =~= self.view_path());
        }
        path
    }
}

impl Default for SymbolPath {
    fn default() -> (path: Self)
        ensures
            path.segments@.len() == 0,
    {
        SymbolPath { segments: Vec::new() }
    }
}

#[derive(Debug, Clone, PartialEq, Eq, Hash)]
pub struct Definition {
    pub name: String,
    pub kind: DefinitionKind,
    pub span: SourceSpan,
    pub selection_span: SourceSpan,
    pub path: SymbolPath,
    pub detail: Option<String>,
}

/// A definition with its texts as UTF-8 bytes.
pub struct DefV {
    pub name: Seq<u8>,
    pub kind: DefinitionKind,
    pub span: SourceSpan,
    pub selection_span: SourceSpan,
    pub path: Seq<SegV>,
    pub detail: Option<Seq<u8>>,
}

/// The kind of document symbol that a definition of each kind is shown as.
pub open spec fn symbol_kind_of(kind: DefinitionKind) -> SymbolKind {
    match kind {
        DefinitionKind::DocumentRoot => SymbolKind::Document,
        DefinitionKind::Directive | DefinitionKind::Import => SymbolKind::Directive,
        DefinitionKind::Alias | DefinitionKind::Let => SymbolKind::Variable,
        DefinitionKind::Key => SymbolKind::MappingKey,
        DefinitionKind::Tag => SymbolKind::Tag,
    }
}

impl Definition {
    /// A copy with the same texts, spans and path.
    pub fn duplicate(&self) -> (d: Definition)
        ensures
            d.view_def() == self.view_def(),
    {
        Definition {
            name: self.name.clone(),
            kind: self.kind,
            span: self.span,
            selection_span: self.selection_span,
            path: self.path.duplicate(),
            detail: match &self.detail {
                Some(t) => Some(t.clone()),
                None => None,
            },
        }
    }

    pub open spec fn view_def(&self) -> DefV {
        DefV {
            name: utf8(self.name@),
            kind: self.kind,
            span: self.span,
            selection_span: self.selection_span,
            path: self.path.view_path(),
            detail: match self.detail {
                Some(d) => Some(utf8(d@)),
                None => None,
            },
        }
    }

    /// The definition as a document symbol: same name and spans, its kind mapped by
    /// `symbol_kind_of`. Every definition has one.
    pub fn as_symbol(&self) -> (symbol: Option<Symbol>)
        ensures
            symbol matches Some(s) && s.name@ == self.name@ && s.kind == symbol_kind_of(self.kind)
                && s.span == self.span && s.selection_span == self.selection_span,
    {
        let kind = match self.kind {
            DefinitionKind::DocumentRoot => SymbolKind::Document,
            DefinitionKind::Directive | DefinitionKind::Import => SymbolKind::Directive,
            DefinitionKind::Alias | DefinitionKind::Let => SymbolKind::Variable,
            DefinitionKind::Key => SymbolKind::MappingKey,
            DefinitionKind::Tag => SymbolKind::Tag,
        };
        Some(
            Symbol {
                name: self.name.clone(),
                kind,
                span: self.span,
                selection_span: self.selection_span,
            },
        )
    }
}

} // verus!
