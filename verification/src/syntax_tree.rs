//! A text rendering of the syntax tree, one line per node with its `line:column` range.
use vstd::prelude::*;
use vstd::utf8::valid_utf8;

use crate::ast::{
    DocItemV, DocV, Document, DocumentItem, EntryV, ItemV, LeafV, Mapping, MappingEntry, Node, NodeV,
    ScalarKind, Sequence, SequenceItem,
};
use crate::parser::fallback::{decimal, lemma_decimal_ascii, push_decimal};
use crate::position::{lemma_newlines_bounds, line_start_of, newlines_before};
use crate::syntax::{ParsedFile, SourceSpan, SourceText};
use crate::text::{all_ascii, bytes_to_string, lemma_ascii_valid, lemma_str_valid, push_ascii, push_text, utf8};

verus! {

broadcast use vstd::utf8::valid_utf8_concat;

/// ASCII bytes of a literal.
pub open spec fn lit(s: &str) -> Seq<u8> {
    utf8(s@)
}

pub open spec fn clamp(b: Seq<u8>, offset: int) -> int {
    if offset <= b.len() {
        offset
    } else {
        b.len() as int
    }
}

/// `line:column` of an offset, both one-based.
pub open spec fn point_label(b: Seq<u8>, offset: int) -> Seq<u8> {
    let c = clamp(b, offset);
    decimal((newlines_before(b, c) + 1) as nat) + seq![0x3au8] + decimal(
        (c - line_start_of(b, c) + 1) as nat,
    )
}

/// `line:column-line:column` of a span.
pub open spec fn span_label_spec(b: Seq<u8>, span: SourceSpan) -> Seq<u8> {
    point_label(b, span.start as int) + seq![0x2du8] + point_label(b, span.end as int)
}

pub open spec fn spaces(n: nat) -> Seq<u8> {
    Seq::new(n, |i: int| 0x20u8)
}

pub open spec fn kind_name(k: ScalarKind) -> Seq<u8> {
    match k {
        ScalarKind::Plain => lit("Plain"),
        ScalarKind::String => lit("String"),
        ScalarKind::Number => lit("Number"),
        ScalarKind::BlockString => lit("BlockString"),
        ScalarKind::LuaExpression => lit("LuaExpression"),
        ScalarKind::LuaBlock => lit("LuaBlock"),
    }
}

/// One line: indentation, a word, an optional text, the span's label.
pub open spec fn tree_line(b: Seq<u8>, indent: nat, word: Seq<u8>, text: Option<Seq<u8>>, span: SourceSpan) -> Seq<u8> {
    spaces(indent) + word + seq![0x20u8] + match text {
        Some(t) => t + seq![0x20u8],
        None => seq![],
    } + span_label_spec(b, span) + seq![0x0au8]
}

/// The line of a scalar or an error; a node of another kind held as a value renders nothing.
pub open spec fn leaf_lines(b: Seq<u8>, l: LeafV, indent: nat) -> Seq<u8> {
    match l {
        LeafV::Scalar { kind, span, .. } => tree_line(b, indent, lit("Scalar"), Some(kind_name(kind)), span),
        LeafV::Error { span, message } => tree_line(b, indent, lit("Error"), Some(message), span),
        LeafV::Nested { .. } => seq![],
    }
}

pub open spec fn opt_leaf_lines(b: Seq<u8>, l: Option<LeafV>, indent: nat) -> Seq<u8> {
    match l {
        Some(x) => leaf_lines(b, x, indent),
        None => seq![],
    }
}

pub open spec fn entries_lines(b: Seq<u8>, es: Seq<EntryV>, indent: nat, k: int) -> Seq<u8>
    decreases k,
{
    if k <= 0 {
        seq![]
    } else {
        let e = es[k - 1];
        entries_lines(b, es, indent, k - 1) + tree_line(b, indent + 2, lit("Key"), Some(e.key), e.key_span)
            + opt_leaf_lines(b, e.value, indent + 4)
    }
}

pub open spec fn items_lines(b: Seq<u8>, items: Seq<ItemV>, indent: nat, k: int) -> Seq<u8>
    decreases k,
{
    if k <= 0 {
        seq![]
    } else {
        let it = items[k - 1];
        items_lines(b, items, indent, k - 1) + tree_line(b, indent + 2, lit("Item"), None, it.span)
            + opt_leaf_lines(b, it.value, indent + 4)
    }
}

pub open spec fn node_lines(b: Seq<u8>, n: NodeV, indent: nat) -> Seq<u8> {
    match n {
        NodeV::Mapping { span, entries } => tree_line(b, indent, lit("Mapping"), None, span)
            + entries_lines(b, entries, indent, entries.len() as int),
        NodeV::Sequence { span, items } => tree_line(b, indent, lit("Sequence"), None, span)
            + items_lines(b, items, indent, items.len() as int),
        NodeV::Leaf(l) => leaf_lines(b, l, indent),
        NodeV::Tag { name, span, value } => tree_line(b, indent, lit("Tag"), Some(name), span)
            + opt_leaf_lines(b, value, indent + 2),
        NodeV::Spread { span, target } => tree_line(b, indent, lit("Spread"), Some(target), span),
        NodeV::Conditional { span, condition, .. } => tree_line(
            b,
            indent,
            lit("Conditional"),
            Some(condition),
            span,
        ),
        NodeV::Loop { span, header } => tree_line(b, indent, lit("Loop"), Some(header), span),
    }
}

pub open spec fn item_lines(b: Seq<u8>, i: DocItemV) -> Seq<u8> {
    match i {
        DocItemV::Directive { name, span, .. } => tree_line(b, 4, lit("Directive"), Some(name), span),
        DocItemV::Comment { span, .. } => tree_line(b, 4, lit("Comment"), None, span),
        DocItemV::Let { name, span, .. } => tree_line(b, 4, lit("Let"), Some(name), span),
        DocItemV::Node(n) => node_lines(b, n, 4),
    }
}

pub open spec fn doc_items_lines(b: Seq<u8>, items: Seq<DocItemV>, k: int) -> Seq<u8>
    decreases k,
{
    if k <= 0 {
        seq![]
    } else {
        doc_items_lines(b, items, k - 1) + item_lines(b, items[k - 1])
    }
}

pub open spec fn docs_lines(b: Seq<u8>, docs: Seq<DocV>, k: int) -> Seq<u8>
    decreases k,
{
    if k <= 0 {
        seq![]
    } else {
        let d = docs[k - 1];
        docs_lines(b, docs, k - 1) + lit("  Document[") + decimal((k - 1) as nat) + lit("] ")
            + span_label_spec(b, d.span) + seq![0x0au8] + doc_items_lines(
            b,
            d.items,
            d.items.len() as int,
        )
    }
}

/// The rendering of a parsed file.
pub open spec fn tree_text(b: Seq<u8>, file_span: SourceSpan, docs: Seq<DocV>) -> Seq<u8> {
    lit("File ") + span_label_spec(b, file_span) + seq![0x0au8] + docs_lines(b, docs, docs.len() as int)
}

/// The renderer's output so far: valid text that extends what it started from.
spec fn grows(out: Seq<u8>, before: Seq<u8>, added: Seq<u8>) -> bool {
    out == before + added && valid_utf8(out)
}

fn push_lit(out: &mut Vec<u8>, s: &str)
    requires
        valid_utf8(old(out)@),
    ensures
        final(out)@ == old(out)@ + lit(s),
        valid_utf8(final(out)@),
{
    push_text(out, s);
}

fn push_decimal_text(out: &mut Vec<u8>, n: usize)
    requires
        valid_utf8(old(out)@),
    ensures
        final(out)@ == old(out)@ + decimal(n as nat),
        valid_utf8(final(out)@),
{
    let ghost before = out@;
    push_decimal(out, n);
    proof {
        lemma_decimal_ascii(n as nat);
        lemma_ascii_valid(decimal(n as nat));
    }
}

fn push_point(out: &mut Vec<u8>, source: &SourceText, offset: usize)
    requires
        valid_utf8(old(out)@),
        source.wf(),
        source.bytes().len() < usize::MAX,
    ensures
        final(out)@ == old(out)@ + point_label(source.bytes(), offset as int),
        valid_utf8(final(out)@),
{
    let p = source.position(offset);
    proof {
        lemma_newlines_bounds(source.bytes(), clamp(source.bytes(), offset as int));
    }
    let ghost before = out@;
    push_decimal_text(out, p.line);
    push_ascii(out, 0x3a);
    push_decimal_text(out, p.column);
    proof {
        assert(out@ =~= before + point_label(source.bytes(), offset as int));
    }
}

fn push_span_label(out: &mut Vec<u8>, source: &SourceText, span: SourceSpan)
    requires
        valid_utf8(old(out)@),
        source.wf(),
        source.bytes().len() < usize::MAX,
    ensures
        final(out)@ == old(out)@ + span_label_spec(source.bytes(), span),
        valid_utf8(final(out)@),
{
    let ghost before = out@;
    push_point(out, source, span.start);
    push_ascii(out, 0x2d);
    push_point(out, source, span.end);
    proof {
        assert(out@ =~= before + span_label_spec(source.bytes(), span));
    }
}

fn push_spaces(out: &mut Vec<u8>, n: usize)
    requires
        valid_utf8(old(out)@),
    ensures
        final(out)@ == old(out)@ + spaces(n as nat),
        valid_utf8(final(out)@),
{
    let ghost before = out@;
    let mut k: usize = 0;
    while k < n
        invariant
            k <= n,
            out@ == before + spaces(k as nat),
            valid_utf8(out@),
        decreases n - k,
    {
        push_ascii(out, 0x20);
        k = k + 1;
        assert(out@ =~= before + spaces(k as nat));
    }
}

/// Pushes one line of the tree.
fn push_tree_line(
    out: &mut Vec<u8>,
    source: &SourceText,
    indent: usize,
    word: &str,
    text: Option<&str>,
    span: SourceSpan,
)
    requires
        valid_utf8(old(out)@),
        source.wf(),
        source.bytes().len() < usize::MAX,
    ensures
        final(out)@ == old(out)@ + tree_line(
            source.bytes(),
            indent as nat,
            lit(word),
            match text {
                Some(t) => Some(utf8(t@)),
                None => None,
            },
            span,
        ),
        valid_utf8(final(out)@),
{
    let ghost before = out@;
    push_spaces(out, indent);
    push_lit(out, word);
    push_ascii(out, 0x20);
    match text {
        Some(t) => {
            push_text(out, t);
            push_ascii(out, 0x20);
        },
        None => {},
    }
    push_span_label(out, source, span);
    push_ascii(out, 0x0a);
    proof {
        assert(out@ =~= before + tree_line(
            source.bytes(),
            indent as nat,
            lit(word),
            match text {
                Some(t) => Some(utf8(t@)),
                None => None,
            },
            span,
        ));
    }
}

fn kind_word(k: ScalarKind) -> (s: &'static str)
    ensures
        lit(s) == kind_name(k),
{
    match k {
        ScalarKind::Plain => "Plain",
        ScalarKind::String => "String",
        ScalarKind::Number => "Number",
        ScalarKind::BlockString => "BlockString",
        ScalarKind::LuaExpression => "LuaExpression",
        ScalarKind::LuaBlock => "LuaBlock",
    }
}

fn render_leaf(out: &mut Vec<u8>, source: &SourceText, node: &Node, indent: usize)
    requires
        valid_utf8(old(out)@),
        source.wf(),
        source.bytes().len() < usize::MAX,
    ensures
        final(out)@ == old(out)@ + leaf_lines(source.bytes(), node.leaf_view(), indent as nat),
        valid_utf8(final(out)@),
{
    match node {
        Node::Scalar(scalar) => {
            push_tree_line(out, source, indent, "Scalar", Some(kind_word(scalar.kind)), scalar.span);
        },
        Node::Error(error) => {
            push_tree_line(out, source, indent, "Error", Some(error.message.as_str()), error.span);
        },
        _ => {
            assert(out@ =~= old(out)@ + Seq::<u8>::empty());
        },
    }
}

fn render_opt_leaf(out: &mut Vec<u8>, source: &SourceText, value: &Option<Box<Node>>, indent: usize)
    requires
        valid_utf8(old(out)@),
        source.wf(),
        source.bytes().len() < usize::MAX,
    ensures
        final(out)@ == old(out)@ + opt_leaf_lines(source.bytes(), crate::ast::opt_leaf(*value), indent as nat),
        valid_utf8(final(out)@),
{
    match value {
        Some(node) => render_leaf(out, source, node, indent),
        None => {
            assert(out@ =~= old(out)@ + Seq::<u8>::empty());
        },
    }
}


fn render_entry(out: &mut Vec<u8>, source: &SourceText, entry: &MappingEntry, indent: usize)
    requires
        valid_utf8(old(out)@),
        source.wf(),
        source.bytes().len() < usize::MAX,
        indent + 4 <= usize::MAX,
    ensures
        final(out)@ == old(out)@ + (tree_line(
            source.bytes(),
            (indent + 2) as nat,
            lit("Key"),
            Some(entry.view_entry().key),
            entry.key_span,
        ) + opt_leaf_lines(source.bytes(), entry.view_entry().value, (indent + 4) as nat)),
        valid_utf8(final(out)@),
{
    let ghost before = out@;
    push_tree_line(out, source, indent + 2, "Key", Some(entry.key.as_str()), entry.key_span);
    let ghost mid = out@;
    render_opt_leaf(out, source, &entry.value, indent + 4);
    proof {
        assert(out@ =~= before + (tree_line(
            source.bytes(),
            (indent + 2) as nat,
            lit("Key"),
            Some(entry.view_entry().key),
            entry.key_span,
        ) + opt_leaf_lines(source.bytes(), entry.view_entry().value, (indent + 4) as nat)));
    }
}

fn render_seq_item(out: &mut Vec<u8>, source: &SourceText, item: &SequenceItem, indent: usize)
    requires
        valid_utf8(old(out)@),
        source.wf(),
        source.bytes().len() < usize::MAX,
        indent + 4 <= usize::MAX,
    ensures
        final(out)@ == old(out)@ + (tree_line(source.bytes(), (indent + 2) as nat, lit("Item"), None, item.span)
            + opt_leaf_lines(source.bytes(), item.view_item().value, (indent + 4) as nat)),
        valid_utf8(final(out)@),
{
    let ghost before = out@;
    push_tree_line(out, source, indent + 2, "Item", None, item.span);
    render_opt_leaf(out, source, &item.value, indent + 4);
    proof {
        assert(out@ =~= before + (tree_line(source.bytes(), (indent + 2) as nat, lit("Item"), None, item.span)
            + opt_leaf_lines(source.bytes(), item.view_item().value, (indent + 4) as nat)));
    }
}

fn render_mapping(out: &mut Vec<u8>, source: &SourceText, mapping: &Mapping, indent: usize)
    requires
        valid_utf8(old(out)@),
        source.wf(),
        source.bytes().len() < usize::MAX,
        indent + 4 <= usize::MAX,
    ensures
        final(out)@ == old(out)@ + node_lines(
            source.bytes(),
            NodeV::Mapping {
                span: mapping.span,
                entries: mapping.entries@.map_values(|e: MappingEntry| e.view_entry()),
            },
            indent as nat,
        ),
        valid_utf8(final(out)@),
{
    let ghost before = out@;
    let ghost b = source.bytes();
    let ghost ev = mapping.entries@.map_values(|e: MappingEntry| e.view_entry());
    push_tree_line(out, source, indent, "Mapping", None, mapping.span);
    let ghost head = out@;
    let n = mapping.entries.len();
    let mut i: usize = 0;
    while i < n
        invariant
            i <= n,
            n == mapping.entries@.len(),
            ev == mapping.entries@.map_values(|e: MappingEntry| e.view_entry()),
            b == source.bytes(),
            source.wf(),
            source.bytes().len() < usize::MAX,
            indent + 4 <= usize::MAX,
            valid_utf8(out@),
            out@ == head + entries_lines(b, ev, indent as nat, i as int),
        decreases n - i,
    {
        let ghost prev = out@;
        render_entry(out, source, &mapping.entries[i], indent);
        proof {
            assert(ev[i as int] == mapping.entries@[i as int].view_entry());
            assert(out@ =~= head + entries_lines(b, ev, indent as nat, i + 1));
        }
        i = i + 1;
    }
    proof {
        assert(out@ =~= before + node_lines(b, NodeV::Mapping { span: mapping.span, entries: ev }, indent as nat));
    }
}

fn render_sequence(out: &mut Vec<u8>, source: &SourceText, sequence: &Sequence, indent: usize)
    requires
        valid_utf8(old(out)@),
        source.wf(),
        source.bytes().len() < usize::MAX,
        indent + 4 <= usize::MAX,
    ensures
        final(out)@ == old(out)@ + node_lines(
            source.bytes(),
            NodeV::Sequence {
                span: sequence.span,
                items: sequence.items@.map_values(|i: SequenceItem| i.view_item()),
            },
            indent as nat,
        ),
        valid_utf8(final(out)@),
{
    let ghost before = out@;
    let ghost b = source.bytes();
    let ghost iv = sequence.items@.map_values(|i: SequenceItem| i.view_item());
    push_tree_line(out, source, indent, "Sequence", None, sequence.span);
    let ghost head = out@;
    let n = sequence.items.len();
    let mut i: usize = 0;
    while i < n
        invariant
            i <= n,
            n == sequence.items@.len(),
            iv == sequence.items@.map_values(|i: SequenceItem| i.view_item()),
            b == source.bytes(),
            source.wf(),
            source.bytes().len() < usize::MAX,
            indent + 4 <= usize::MAX,
            valid_utf8(out@),
            out@ == head + items_lines(b, iv, indent as nat, i as int),
        decreases n - i,
    {
        render_seq_item(out, source, &sequence.items[i], indent);
        proof {
            assert(iv[i as int] == sequence.items@[i as int].view_item());
            assert(out@ =~= head + items_lines(b, iv, indent as nat, i + 1));
        }
        i = i + 1;
    }
    proof {
        assert(out@ =~= before + node_lines(b, NodeV::Sequence { span: sequence.span, items: iv }, indent as nat));
    }
}

/// Renders a node at the given indentation; the values it holds are one line deeper.
fn render_node(out: &mut Vec<u8>, source: &SourceText, node: &Node, indent: usize)
    requires
        valid_utf8(old(out)@),
        source.wf(),
        source.bytes().len() < usize::MAX,
        indent + 4 <= usize::MAX,
    ensures
        final(out)@ == old(out)@ + node_lines(source.bytes(), node.view_node(), indent as nat),
        valid_utf8(final(out)@),
{
    match node {
        Node::Mapping(mapping) => render_mapping(out, source, mapping, indent),
        Node::Sequence(sequence) => render_sequence(out, source, sequence, indent),
        Node::Scalar(_) => render_leaf(out, source, node, indent),
        Node::Error(_) => render_leaf(out, source, node, indent),
        Node::Tag(tag) => {
            let ghost before = out@;
            push_tree_line(out, source, indent, "Tag", Some(tag.name.as_str()), tag.span);
            render_opt_leaf(out, source, &tag.value, indent + 2);
            proof {
                assert(out@ =~= before + node_lines(source.bytes(), node.view_node(), indent as nat));
            }
        },
        Node::Spread(spread) => {
            push_tree_line(out, source, indent, "Spread", Some(spread.target.as_str()), spread.span);
        },
        Node::Conditional(conditional) => {
            push_tree_line(
                out,
                source,
                indent,
                "Conditional",
                Some(conditional.condition.as_str()),
                conditional.span,
            );
        },
        Node::Loop(loop_node) => {
            push_tree_line(out, source, indent, "Loop", Some(loop_node.header.as_str()), loop_node.span);
        },
    }
}

fn render_document_item(out: &mut Vec<u8>, source: &SourceText, item: &DocumentItem)
    requires
        valid_utf8(old(out)@),
        source.wf(),
        source.bytes().len() < usize::MAX,
    ensures
        final(out)@ == old(out)@ + item_lines(source.bytes(), item.view_item()),
        valid_utf8(final(out)@),
{
    match item {
        DocumentItem::Directive(directive) => {
            push_tree_line(out, source, 4, "Directive", Some(directive.name.as_str()), directive.span);
        },
        DocumentItem::Comment(comment) => {
            push_tree_line(out, source, 4, "Comment", None, comment.span);
        },
        DocumentItem::Let(binding) => {
            push_tree_line(out, source, 4, "Let", Some(binding.name.as_str()), binding.span);
        },
        DocumentItem::Node(node) => render_node(out, source, node, 4),
    }
}

fn render_document(out: &mut Vec<u8>, source: &SourceText, document: &Document, index: usize)
    requires
        valid_utf8(old(out)@),
        source.wf(),
        source.bytes().len() < usize::MAX,
    ensures
        final(out)@ == old(out)@ + (lit("  Document[") + decimal(index as nat) + lit("] ")
            + span_label_spec(source.bytes(), document.span) + seq![0x0au8] + doc_items_lines(
            source.bytes(),
            document.view_doc().items,
            document.view_doc().items.len() as int,
        )),
        valid_utf8(final(out)@),
{
    let ghost before = out@;
    let ghost b = source.bytes();
    let ghost dv = document.view_doc().items;
    push_lit(out, "  Document[");
    push_decimal_text(out, index);
    push_lit(out, "] ");
    push_span_label(out, source, document.span);
    push_ascii(out, 0x0a);
    let ghost head = out@;
    let n = document.items.len();
    let mut i: usize = 0;
    while i < n
        invariant
            i <= n,
            n == document.items@.len(),
            dv == document.view_doc().items,
            b == source.bytes(),
            source.wf(),
            source.bytes().len() < usize::MAX,
            valid_utf8(out@),
            out@ == head + doc_items_lines(b, dv, i as int),
        decreases n - i,
    {
        render_document_item(out, source, &document.items[i]);
        proof {
            assert(dv[i as int] == document.items@[i as int].view_item());
            assert(out@ =~= head + doc_items_lines(b, dv, i + 1));
        }
        i = i + 1;
    }
    proof {
        assert(dv.len() == n);
        assert(out@ =~= before + (lit("  Document[") + decimal(index as nat) + lit("] ")
            + span_label_spec(b, document.span) + seq![0x0au8] + doc_items_lines(b, dv, dv.len() as int)));
    }
}

fn render_documents(out: &mut Vec<u8>, source: &SourceText, documents: &Vec<Document>)
    requires
        valid_utf8(old(out)@),
        source.wf(),
        source.bytes().len() < usize::MAX,
    ensures
        final(out)@ == old(out)@ + docs_lines(
            source.bytes(),
            documents@.map_values(|d: Document| d.view_doc()),
            documents@.len() as int,
        ),
        valid_utf8(final(out)@),
{
    let ghost b = source.bytes();
    let ghost docs = documents@.map_values(|d: Document| d.view_doc());
    let ghost head = out@;
    let n = documents.len();
    let mut i: usize = 0;
    while i < n
        invariant
            i <= n,
            n == documents@.len(),
            docs == documents@.map_values(|d: Document| d.view_doc()),
            b == source.bytes(),
            source.wf(),
            source.bytes().len() < usize::MAX,
            valid_utf8(out@),
            out@ == head + docs_lines(b, docs, i as int),
        decreases n - i,
    {
        render_document(out, source, &documents[i], i);
        proof {
            assert(docs[i as int] == documents@[i as int].view_doc());
            assert(out@ =~= head + docs_lines(b, docs, i + 1));
        }
        i = i + 1;
    }
}

/// The syntax tree of a parsed file as text: the file's range, then each document with
/// its index and range, then its items, nodes and the values they hold, indented by depth.
/// The values that nodes hold are scalars or errors, as the parser builds them.
pub fn render_syntax_tree(source: &SourceText, file: &ParsedFile) -> (text: String)
    requires
        source.wf(),
        source.bytes().len() < usize::MAX,
        match file {
            ParsedFile::Fallback(f) => forall|i: int|
                0 <= i < f.ast.documents@.len() ==> (#[trigger] f.ast.documents@[i]).nodes_nested_leaves(),
        },
    ensures
        match file {
            ParsedFile::Fallback(f) => utf8(text@) == tree_text(
                source.bytes(),
                f.span,
                f.ast.documents@.map_values(|d: Document| d.view_doc()),
            ),
        },
{
    let mut out: Vec<u8> = Vec::new();
    proof {
        lemma_ascii_valid(Seq::<u8>::empty());
    }
    match file {
        ParsedFile::Fallback(f) => {
            let ghost b = source.bytes();
            push_lit(&mut out, "File ");
            push_span_label(&mut out, source, f.span);
            push_ascii(&mut out, 0x0a);
            render_documents(&mut out, source, &f.ast.documents);
            proof {
                assert(out@ =~= tree_text(b, f.span, f.ast.documents@.map_values(|d: Document| d.view_doc())));
            }
        },
    }
    bytes_to_string(out)
}

} // verus!
