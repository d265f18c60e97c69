//! Syntax tree of Lyma documents as the fallback parser builds it.
use vstd::prelude::*;

use crate::syntax::SourceSpan;
use crate::text::utf8;

verus! {

#[derive(Debug, PartialEq, Eq)]
pub struct AstFile {
    pub span: SourceSpan,
    pub documents: Vec<Document>,
}

#[derive(Debug, PartialEq, Eq)]
pub struct Document {
    pub span: SourceSpan,
    pub separator_span: Option<SourceSpan>,
    pub items: Vec<DocumentItem>,
}

#[derive(Debug, PartialEq, Eq)]
pub enum DocumentItem {
    Directive(Directive),
    Comment(Comment),
    Let(LetBinding),
    Node(Node),
}

#[derive(Debug, Clone, PartialEq, Eq)]
pub struct Directive {
    pub name: String,
    pub span: SourceSpan,
    pub value: Option<String>,
}

#[derive(Debug, Clone, PartialEq, Eq)]
pub struct Comment {
    pub span: SourceSpan,
    pub text: String,
}

#[derive(Debug, Clone, PartialEq, Eq)]
pub struct LetBinding {
    pub name: String,
    pub span: SourceSpan,
    pub value_span: Option<SourceSpan>,
}

#[derive(Debug, PartialEq, Eq)]
pub enum Node {
    Mapping(Mapping),
    Sequence(Sequence),
    Scalar(Scalar),
    Tag(TagNode),
    Spread(SpreadNode),
    Conditional(ConditionalNode),
    Loop(LoopNode),
    Error(ErrorNode),
}

impl Node {
    pub open spec fn span_of(&self) -> SourceSpan {
        match self {
            Node::Mapping(node) => node.span,
            Node::Sequence(node) => node.span,
            Node::Scalar(node) => node.span,
            Node::Tag(node) => node.span,
            Node::Spread(node) => node.span,
            Node::Conditional(node) => node.span,
            Node::Loop(node) => node.span,
            Node::Error(node) => node.span,
        }
    }

    pub fn span(&self) -> (span: SourceSpan)
        ensures
            span == self.span_of(),
    {
        match self {
            Node::Mapping(node) => node.span,
            Node::Sequence(node) => node.span,
            Node::Scalar(node) => node.span,
            Node::Tag(node) => node.span,
            Node::Spread(node) => node.span,
            Node::Conditional(node) => node.span,
            Node::Loop(node) => node.span,
            Node::Error(node) => node.span,
        }
    }
}

#[derive(Debug, PartialEq, Eq)]
pub struct Mapping {
    pub span: SourceSpan,
    pub entries: Vec<MappingEntry>,
}

#[derive(Debug, PartialEq, Eq)]
pub struct MappingEntry {
    pub key: String,
    pub key_span: SourceSpan,
    pub span: SourceSpan,
    pub value: Option<Box<Node>>,
    pub metadata: Option<String>,
}

#[derive(Debug, PartialEq, Eq)]
pub struct Sequence {
    pub span: SourceSpan,
    pub items: Vec<SequenceItem>,
}

#[derive(Debug, PartialEq, Eq)]
pub struct SequenceItem {
    pub span: SourceSpan,
    pub value: Option<Box<Node>>,
}

#[derive(Debug, Clone, PartialEq, Eq)]
pub struct Scalar {
    pub kind: ScalarKind,
    pub span: SourceSpan,
    pub text: String,
}

#[derive(Debug, Clone, Copy, PartialEq, Eq, Structural)]
pub enum ScalarKind {
    Plain,
    String,
    Number,
    BlockString,
    LuaExpression,
    LuaBlock,
}

#[derive(Debug, PartialEq, Eq)]
pub struct TagNode {
    pub name: String,
    pub span: SourceSpan,
    pub value: Option<Box<Node>>,
}

#[derive(Debug, Clone, PartialEq, Eq)]
pub struct SpreadNode {
    pub span: SourceSpan,
    pub target: String,
}

#[derive(Debug, Clone, PartialEq, Eq)]
pub struct ConditionalNode {
    pub span: SourceSpan,
    pub condition: String,
    pub branches: Vec<ConditionalBranch>,
}

#[derive(Debug, Clone, PartialEq, Eq)]
pub struct ConditionalBranch {
    pub label: String,
    pub span: SourceSpan,
}

#[derive(Debug, Clone, PartialEq, Eq)]
pub struct LoopNode {
    pub span: SourceSpan,
    pub header: String,
}

#[derive(Debug, Clone, PartialEq, Eq)]
pub struct ErrorNode {
    pub span: SourceSpan,
    pub message: String,
}

// ---------------------------------------------------------------------------
// The tree as values: texts as their UTF-8 bytes.
/// A scalar or error node; `Nested` stands for any other node found inside a node.
pub enum LeafV {
    Scalar { kind: ScalarKind, span: SourceSpan, text: Seq<u8> },
    Error { span: SourceSpan, message: Seq<u8> },
    Nested { span: SourceSpan },
}

pub struct EntryV {
    pub key: Seq<u8>,
    pub key_span: SourceSpan,
    pub span: SourceSpan,
    pub value: Option<LeafV>,
    pub metadata: Option<Seq<u8>>,
}

pub struct ItemV {
    pub span: SourceSpan,
    pub value: Option<LeafV>,
}

pub enum NodeV {
    Mapping { span: SourceSpan, entries: Seq<EntryV> },
    Sequence { span: SourceSpan, items: Seq<ItemV> },
    Leaf(LeafV),
    Tag { name: Seq<u8>, span: SourceSpan, value: Option<LeafV> },
    Spread { span: SourceSpan, target: Seq<u8> },
    Conditional { span: SourceSpan, condition: Seq<u8>, branches: Seq<(Seq<u8>, SourceSpan)> },
    Loop { span: SourceSpan, header: Seq<u8> },
}

pub enum DocItemV {
    Directive { name: Seq<u8>, span: SourceSpan, value: Option<Seq<u8>> },
    Comment { span: SourceSpan, text: Seq<u8> },
    Let { name: Seq<u8>, span: SourceSpan, value_span: Option<SourceSpan> },
    Node(NodeV),
}

pub struct DocV {
    pub span: SourceSpan,
    pub separator_span: Option<SourceSpan>,
    pub items: Seq<DocItemV>,
}

pub open spec fn opt_text(s: Option<String>) -> Option<Seq<u8>> {
    match s {
        Some(t) => Some(utf8(t@)),
        None => None,
    }
}

impl Node {
    /// The node as a leaf value, as it is seen inside another node.
    pub open spec fn leaf_view(&self) -> LeafV {
        match self {
            Node::Scalar(s) => LeafV::Scalar { kind: s.kind, span: s.span, text: utf8(s.text@) },
            Node::Error(e) => LeafV::Error { span: e.span, message: utf8(e.message@) },
            _ => LeafV::Nested { span: self.span_of() },
        }
    }

    pub open spec fn view_node(&self) -> NodeV {
        match self {
            Node::Mapping(m) => NodeV::Mapping {
                span: m.span,
                entries: m.entries@.map_values(|e: MappingEntry| e.view_entry()),
            },
            Node::Sequence(q) => NodeV::Sequence {
                span: q.span,
                items: q.items@.map_values(|i: SequenceItem| i.view_item()),
            },
            Node::Scalar(_) => NodeV::Leaf(self.leaf_view()),
            Node::Error(_) => NodeV::Leaf(self.leaf_view()),
            Node::Tag(t) => NodeV::Tag {
                name: utf8(t.name@),
                span: t.span,
                value: opt_leaf(t.value),
            },
            Node::Spread(x) => NodeV::Spread { span: x.span, target: utf8(x.target@) },
            Node::Conditional(c) => NodeV::Conditional {
                span: c.span,
                condition: utf8(c.condition@),
                branches: c.branches@.map_values(
                    |b: ConditionalBranch| (utf8(b.label@), b.span),
                ),
            },
            Node::Loop(l) => NodeV::Loop { span: l.span, header: utf8(l.header@) },
        }
    }
}

pub open spec fn opt_leaf(value: Option<Box<Node>>) -> Option<LeafV> {
    match value {
        Some(n) => Some(n.leaf_view()),
        None => None,
    }
}

impl MappingEntry {
    pub open spec fn view_entry(&self) -> EntryV {
        EntryV {
            key: utf8(self.key@),
            key_span: self.key_span,
            span: self.span,
            value: opt_leaf(self.value),
            metadata: opt_text(self.metadata),
        }
    }
}

impl SequenceItem {
    pub open spec fn view_item(&self) -> ItemV {
        ItemV { span: self.span, value: opt_leaf(self.value) }
    }
}

impl DocumentItem {
    pub open spec fn view_item(&self) -> DocItemV {
        match self {
            DocumentItem::Directive(d) => DocItemV::Directive {
                name: utf8(d.name@),
                span: d.span,
                value: opt_text(d.value),
            },
            DocumentItem::Comment(c) => DocItemV::Comment { span: c.span, text: utf8(c.text@) },
            DocumentItem::Let(l) => DocItemV::Let {
                name: utf8(l.name@),
                span: l.span,
                value_span: l.value_span,
            },
            DocumentItem::Node(n) => DocItemV::Node(n.view_node()),
        }
    }
}

impl Document {
    pub open spec fn view_doc(&self) -> DocV {
        DocV {
            span: self.span,
            separator_span: self.separator_span,
            items: self.items@.map_values(|i: DocumentItem| i.view_item()),
        }
    }
}

/// A value held by a node is a scalar or an error.
pub open spec fn opt_is_leaf(v: Option<Box<Node>>) -> bool {
    match v {
        Some(n) => *n is Scalar || *n is Error,
        None => true,
    }
}

impl Node {
    /// The values that the node holds are scalars or errors, as the parser makes them.
    pub open spec fn nested_leaves(&self) -> bool {
        match self {
            Node::Mapping(m) => forall|i: int|
                0 <= i < m.entries@.len() ==> opt_is_leaf(#[trigger] m.entries@[i].value),
            Node::Sequence(q) => forall|i: int|
                0 <= i < q.items@.len() ==> opt_is_leaf(#[trigger] q.items@[i].value),
            Node::Tag(t) => opt_is_leaf(t.value),
            _ => true,
        }
    }
}

impl Document {
    pub open spec fn nodes_nested_leaves(&self) -> bool {
        forall|i: int|
            0 <= i < self.items@.len() ==> (#[trigger] self.items@[i] matches DocumentItem::Node(n)
                ==> n.nested_leaves())
    }
}

} // verus!
