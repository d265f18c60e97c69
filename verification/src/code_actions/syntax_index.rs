//! The parts of a parsed file that code actions look at: its directives, its mapping
//! entries and its scalars, each in document order.
use vstd::prelude::*;

use crate::ast::{
    DocItemV, DocV, Document, DocumentItem, EntryV, ItemV, LeafV, MappingEntry, Node, NodeV, ScalarKind,
    SequenceItem,
};
use crate::syntax::SourceSpan;
use crate::text::utf8;

verus! {

/// A directive: its name and span.
pub type DirV = (Seq<u8>, SourceSpan);

/// A mapping entry: key, key span, entry span, whether it has a value.
pub type EntV = (Seq<u8>, SourceSpan, SourceSpan, bool);

/// A scalar: kind, span, text.
pub type ScalV = (ScalarKind, SourceSpan, Seq<u8>);

pub open spec fn item_dirs(i: DocItemV) -> Seq<DirV> {
    match i {
        DocItemV::Directive { name, span, .. } => seq![(name, span)],
        _ => seq![],
    }
}

pub open spec fn entry_v(e: EntryV) -> EntV {
    (e.key, e.key_span, e.span, e.value is Some)
}

pub open spec fn item_entries(i: DocItemV) -> Seq<EntV> {
    match i {
        DocItemV::Node(NodeV::Mapping { entries, .. }) => entries.map_values(|e: EntryV| entry_v(e)),
        _ => seq![],
    }
}

pub open spec fn leaf_scalars(l: Option<LeafV>) -> Seq<ScalV> {
    match l {
        Some(LeafV::Scalar { kind, span, text }) => seq![(kind, span, text)],
        _ => seq![],
    }
}

pub open spec fn entries_scalars(es: Seq<EntryV>, k: int) -> Seq<ScalV>
    decreases k,
{
    if k <= 0 {
        seq![]
    } else {
        entries_scalars(es, k - 1) + leaf_scalars(es[k - 1].value)
    }
}

pub open spec fn seq_items_scalars(items: Seq<ItemV>, k: int) -> Seq<ScalV>
    decreases k,
{
    if k <= 0 {
        seq![]
    } else {
        seq_items_scalars(items, k - 1) + leaf_scalars(items[k - 1].value)
    }
}

/// The scalars a node holds or is, in order.
pub open spec fn node_scalars(n: NodeV) -> Seq<ScalV> {
    match n {
        NodeV::Mapping { entries, .. } => entries_scalars(entries, entries.len() as int),
        NodeV::Sequence { items, .. } => seq_items_scalars(items, items.len() as int),
        NodeV::Leaf(l) => leaf_scalars(Some(l)),
        NodeV::Tag { value, .. } => leaf_scalars(value),
        _ => seq![],
    }
}

pub open spec fn item_scalars(i: DocItemV) -> Seq<ScalV> {
    match i {
        DocItemV::Node(n) => node_scalars(n),
        _ => seq![],
    }
}

pub open spec fn items_dirs(items: Seq<DocItemV>, k: int) -> Seq<DirV>
    decreases k,
{
    if k <= 0 {
        seq![]
    } else {
        items_dirs(items, k - 1) + item_dirs(items[k - 1])
    }
}

pub open spec fn items_entries(items: Seq<DocItemV>, k: int) -> Seq<EntV>
    decreases k,
{
    if k <= 0 {
        seq![]
    } else {
        items_entries(items, k - 1) + item_entries(items[k - 1])
    }
}

pub open spec fn items_scalars(items: Seq<DocItemV>, k: int) -> Seq<ScalV>
    decreases k,
{
    if k <= 0 {
        seq![]
    } else {
        items_scalars(items, k - 1) + item_scalars(items[k - 1])
    }
}

/// The directives of the first `k` documents.
pub open spec fn docs_dirs(docs: Seq<DocV>, k: int) -> Seq<DirV>
    decreases k,
{
    if k <= 0 {
        seq![]
    } else {
        docs_dirs(docs, k - 1) + items_dirs(docs[k - 1].items, docs[k - 1].items.len() as int)
    }
}

/// The mapping entries of the first `k` documents.
pub open spec fn docs_entries(docs: Seq<DocV>, k: int) -> Seq<EntV>
    decreases k,
{
    if k <= 0 {
        seq![]
    } else {
        docs_entries(docs, k - 1) + items_entries(docs[k - 1].items, docs[k - 1].items.len() as int)
    }
}

/// The scalars of the first `k` documents.
pub open spec fn docs_scalars(docs: Seq<DocV>, k: int) -> Seq<ScalV>
    decreases k,
{
    if k <= 0 {
        seq![]
    } else {
        docs_scalars(docs, k - 1) + items_scalars(docs[k - 1].items, docs[k - 1].items.len() as int)
    }
}

#[derive(Debug, Clone, PartialEq, Eq)]
pub struct IndexedEntry {
    pub key: String,
    pub key_span: SourceSpan,
    pub span: SourceSpan,
    pub has_value: bool,
}

#[derive(Debug, Clone, PartialEq, Eq)]
pub struct IndexedScalar {
    pub kind: ScalarKind,
    pub span: SourceSpan,
    pub text: String,
}

#[derive(Debug, Clone, PartialEq, Eq)]
pub struct IndexedDirective {
    pub name: String,
    pub span: SourceSpan,
}

pub open spec fn dirs_view(s: Seq<IndexedDirective>) -> Seq<DirV> {
    s.map_values(|d: IndexedDirective| (utf8(d.name@), d.span))
}

pub open spec fn entries_view(s: Seq<IndexedEntry>) -> Seq<EntV> {
    s.map_values(|e: IndexedEntry| (utf8(e.key@), e.key_span, e.span, e.has_value))
}

pub open spec fn scalars_view(s: Seq<IndexedScalar>) -> Seq<ScalV> {
    s.map_values(|x: IndexedScalar| (x.kind, x.span, utf8(x.text@)))
}

/// Directives, mapping entries and scalars of a file, in document order.
pub struct SyntaxIndex {
    pub directives: Vec<IndexedDirective>,
    pub entries: Vec<IndexedEntry>,
    pub scalars: Vec<IndexedScalar>,
}

impl SyntaxIndex {
    pub open spec fn indexes(&self, docs: Seq<DocV>) -> bool {
        &&& dirs_view(self.directives@) == docs_dirs(docs, docs.len() as int)
        &&& entries_view(self.entries@) == docs_entries(docs, docs.len() as int)
        &&& scalars_view(self.scalars@) == docs_scalars(docs, docs.len() as int)
    }
}

fn push_leaf_scalar(value: &Option<Box<Node>>, scalars: &mut Vec<IndexedScalar>)
    ensures
        scalars_view(final(scalars)@) == scalars_view(old(scalars)@) + leaf_scalars(crate::ast::opt_leaf(*value)),
{
    let ghost before = scalars@;
    match value {
        Some(node) => match &**node {
            Node::Scalar(s) => {
                scalars.push(IndexedScalar { kind: s.kind, span: s.span, text: s.text.clone() });
                proof {
                    assert(scalars_view(scalars@) =~= scalars_view(before) + leaf_scalars(crate::ast::opt_leaf(*value)));
                }
            },
            _ => {
                assert(scalars_view(scalars@) =~= scalars_view(before) + leaf_scalars(crate::ast::opt_leaf(*value)));
            },
        },
        None => {
            assert(scalars_view(scalars@) =~= scalars_view(before) + leaf_scalars(crate::ast::opt_leaf(*value)));
        },
    }
}

fn visit_entries(mapping_entries: &Vec<MappingEntry>, entries: &mut Vec<IndexedEntry>, scalars: &mut Vec<IndexedScalar>)
    ensures
        entries_view(final(entries)@) == entries_view(old(entries)@) + mapping_entries@.map_values(
            |e: MappingEntry| e.view_entry(),
        ).map_values(|e: EntryV| entry_v(e)),
        scalars_view(final(scalars)@) == scalars_view(old(scalars)@) + entries_scalars(
            mapping_entries@.map_values(|e: MappingEntry| e.view_entry()),
            mapping_entries@.len() as int,
        ),
{
    let ghost ev = mapping_entries@.map_values(|e: MappingEntry| e.view_entry());
    let ghost e0 = entries@;
    let ghost s0 = scalars@;
    let n = mapping_entries.len();
    let mut i: usize = 0;
    while i < n
        invariant
            i <= n,
            n == mapping_entries@.len(),
            ev == mapping_entries@.map_values(|e: MappingEntry| e.view_entry()),
            entries_view(entries@) =~= entries_view(e0) + ev.subrange(0, i as int).map_values(
                |e: EntryV| entry_v(e),
            ),
            scalars_view(scalars@) =~= scalars_view(s0) + entries_scalars(ev, i as int),
        decreases n - i,
    {
        let e = &mapping_entries[i];
        let ghost eb = entries@;
        entries.push(
            IndexedEntry {
                key: e.key.clone(),
                key_span: e.key_span,
                span: e.span,
                has_value: e.value.is_some(),
            },
        );
        push_leaf_scalar(&e.value, scalars);
        proof {
            assert(ev[i as int] == e.view_entry());
            assert(ev.subrange(0, i + 1) =~= ev.subrange(0, i as int).push(ev[i as int]));
            assert(entries_view(entries@) =~= entries_view(eb).push(entry_v(ev[i as int])));
        }
        i = i + 1;
    }
    proof {
        assert(ev.subrange(0, n as int) =~= ev);
    }
}

fn visit_seq_items(items: &Vec<SequenceItem>, scalars: &mut Vec<IndexedScalar>)
    ensures
        scalars_view(final(scalars)@) == scalars_view(old(scalars)@) + seq_items_scalars(
            items@.map_values(|i: SequenceItem| i.view_item()),
            items@.len() as int,
        ),
{
    let ghost iv = items@.map_values(|i: SequenceItem| i.view_item());
    let ghost s0 = scalars@;
    let n = items.len();
    let mut i: usize = 0;
    while i < n
        invariant
            i <= n,
            n == items@.len(),
            iv == items@.map_values(|i: SequenceItem| i.view_item()),
            scalars_view(scalars@) =~= scalars_view(s0) + seq_items_scalars(iv, i as int),
        decreases n - i,
    {
        push_leaf_scalar(&items[i].value, scalars);
        proof {
            assert(iv[i as int] == items@[i as int].view_item());
        }
        i = i + 1;
    }
}

fn visit_item(item: &DocumentItem, index: &mut SyntaxIndex)
    ensures
        dirs_view(final(index).directives@) == dirs_view(old(index).directives@) + item_dirs(item.view_item()),
        entries_view(final(index).entries@) == entries_view(old(index).entries@) + item_entries(
            item.view_item(),
        ),
        scalars_view(final(index).scalars@) == scalars_view(old(index).scalars@) + item_scalars(
            item.view_item(),
        ),
{
    let ghost d0 = index.directives@;
    let ghost e0 = index.entries@;
    let ghost s0 = index.scalars@;
    match item {
        DocumentItem::Directive(directive) => {
            index.directives.push(IndexedDirective { name: directive.name.clone(), span: directive.span });
            proof {
                assert(dirs_view(index.directives@) =~= dirs_view(d0) + item_dirs(item.view_item()));
            }
        },
        DocumentItem::Node(node) => {
            match node {
                Node::Mapping(m) => visit_entries(&m.entries, &mut index.entries, &mut index.scalars),
                Node::Sequence(q) => visit_seq_items(&q.items, &mut index.scalars),
                Node::Scalar(s) => {
                    index.scalars.push(IndexedScalar { kind: s.kind, span: s.span, text: s.text.clone() });
                },
                Node::Tag(t) => push_leaf_scalar(&t.value, &mut index.scalars),
                _ => {},
            }
            proof {
                assert(dirs_view(index.directives@) =~= dirs_view(d0) + item_dirs(item.view_item()));
                assert(entries_view(index.entries@) =~= entries_view(e0) + item_entries(item.view_item()));
                assert(scalars_view(index.scalars@) =~= scalars_view(s0) + item_scalars(item.view_item()));
            }
        },
        _ => {
            proof {
                assert(dirs_view(index.directives@) =~= dirs_view(d0) + item_dirs(item.view_item()));
                assert(entries_view(index.entries@) =~= entries_view(e0) + item_entries(item.view_item()));
                assert(scalars_view(index.scalars@) =~= scalars_view(s0) + item_scalars(item.view_item()));
            }
        },
    }
}

fn visit_document(document: &Document, index: &mut SyntaxIndex)
    ensures
        ({
            let items = document.view_doc().items;
            &&& dirs_view(final(index).directives@) == dirs_view(old(index).directives@) + items_dirs(
                items,
                items.len() as int,
            )
            &&& entries_view(final(index).entries@) == entries_view(old(index).entries@) + items_entries(
                items,
                items.len() as int,
            )
            &&& scalars_view(final(index).scalars@) == scalars_view(old(index).scalars@) + items_scalars(
                items,
                items.len() as int,
            )
        }),
{
    let ghost items = document.view_doc().items;
    let ghost d0 = index.directives@;
    let ghost e0 = index.entries@;
    let ghost s0 = index.scalars@;
    let n = document.items.len();
    let mut j: usize = 0;
    while j < n
        invariant
            j <= n,
            n == document.items@.len(),
            items == document.view_doc().items,
            dirs_view(index.directives@) =~= dirs_view(d0) + items_dirs(items, j as int),
            entries_view(index.entries@) =~= entries_view(e0) + items_entries(items, j as int),
            scalars_view(index.scalars@) =~= scalars_view(s0) + items_scalars(items, j as int),
        decreases n - j,
    {
        visit_item(&document.items[j], index);
        proof {
            assert(items[j as int] == document.items@[j as int].view_item());
        }
        j = j + 1;
    }
}

/// Indexes the directives, mapping entries and scalars of a file's documents.
pub fn index_syntax(documents: &Vec<Document>) -> (index: SyntaxIndex)
    ensures
        index.indexes(documents@.map_values(|d: Document| d.view_doc())),
{
    let ghost docs = documents@.map_values(|d: Document| d.view_doc());
    let mut index = SyntaxIndex { directives: Vec::new(), entries: Vec::new(), scalars: Vec::new() };
    proof {
        assert(dirs_view(index.directives@) =~= docs_dirs(docs, 0));
        assert(entries_view(index.entries@) =~= docs_entries(docs, 0));
        assert(scalars_view(index.scalars@) =~= docs_scalars(docs, 0));
    }
    let n = documents.len();
    let mut i: usize = 0;
    while i < n
        invariant
            i <= n,
            n == documents@.len(),
            docs == documents@.map_values(|d: Document| d.view_doc()),
            dirs_view(index.directives@) =~= docs_dirs(docs, i as int),
            entries_view(index.entries@) =~= docs_entries(docs, i as int),
            scalars_view(index.scalars@) =~= docs_scalars(docs, i as int),
        decreases n - i,
    {
        visit_document(&documents[i], &mut index);
        proof {
            assert(docs[i as int] == documents@[i as int].view_doc());
        }
        i = i + 1;
    }
    index
}

/// The directives that open a document, up to its first other item.
pub open spec fn leading_from(items: Seq<DocItemV>, k: int) -> Seq<DirV>
    decreases items.len() - k,
{
    if k < 0 || k >= items.len() {
        seq![]
    } else {
        match items[k] {
            DocItemV::Directive { name, span, .. } => seq![(name, span)] + leading_from(items, k + 1),
            _ => seq![],
        }
    }
}

/// The directives that open the first document.
pub open spec fn leading_dirs(docs: Seq<DocV>) -> Seq<DirV> {
    if docs.len() == 0 {
        seq![]
    } else {
        leading_from(docs[0].items, 0)
    }
}

/// The leading directives of the first document.
pub fn leading_directives(documents: &Vec<Document>) -> (dirs: Vec<IndexedDirective>)
    ensures
        dirs_view(dirs@) == leading_dirs(documents@.map_values(|d: Document| d.view_doc())),
{
    let ghost docs = documents@.map_values(|d: Document| d.view_doc());
    let mut dirs: Vec<IndexedDirective> = Vec::new();
    if documents.len() == 0 {
        proof {
            assert(dirs_view(dirs@) =~= leading_dirs(docs));
        }
        return dirs;
    }
    let document = &documents[0];
    let ghost items = document.view_doc().items;
    proof {
        assert(docs[0] == document.view_doc());
    }
    let n = document.items.len();
    let mut k: usize = 0;
    while k < n
        invariant
            k <= n,
            n == document.items@.len(),
            items == document.view_doc().items,
            docs == documents@.map_values(|d: Document| d.view_doc()),
            leading_dirs(docs) == leading_from(items, 0),
            dirs_view(dirs@) + leading_from(items, k as int) =~= leading_from(items, 0),
        decreases n - k,
    {
        proof {
            assert(items[k as int] == document.items@[k as int].view_item());
        }
        match &document.items[k] {
            DocumentItem::Directive(d) => {
                let ghost prev = dirs@;
                dirs.push(IndexedDirective { name: d.name.clone(), span: d.span });
                proof {
                    assert(dirs_view(dirs@) =~= dirs_view(prev).push((utf8(d.name@), d.span)));
                }
            },
            _ => {
                proof {
                    assert(leading_from(items, k as int) =~= Seq::<DirV>::empty());
                    assert(dirs_view(dirs@) =~= leading_from(items, 0));
                }
                return dirs;
            },
        }
        k = k + 1;
    }
    proof {
        assert(leading_from(items, n as int) =~= Seq::<DirV>::empty());
    }
    dirs
}

} // verus!
