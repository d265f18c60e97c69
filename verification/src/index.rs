//! An index over one document's definitions: all of them in order, their symbols, and the
//! definitions of a given name or kind.
use vstd::prelude::*;

use crate::parser::fallback::{sym_view, syms_view, SymV};
use crate::semantic::SemanticDocument;
use crate::symbols::{DefV, Definition, DefinitionKind, symbol_kind_of};
use crate::syntax::Symbol;
use crate::diagnostics::{bytes_lt, bytes_lt_exec, lemma_bytes_lt_order};
use crate::text::{bytes_eq, str_eq, utf8};

verus! {

/// The symbol that a definition is shown as.
pub open spec fn def_symbol(d: DefV) -> SymV {
    (d.name, symbol_kind_of(d.kind), d.span, d.selection_span)
}

/// The first `k` definitions that have the given name, in order.
pub open spec fn named(defs: Seq<Definition>, name: Seq<char>, k: int) -> Seq<Definition>
    decreases k,
{
    if k <= 0 {
        seq![]
    } else if defs[k - 1].name@ == name {
        named(defs, name, k - 1).push(defs[k - 1])
    } else {
        named(defs, name, k - 1)
    }
}

/// The first `k` definitions that have the given kind, in order.
pub open spec fn of_kind(defs: Seq<Definition>, kind: DefinitionKind, k: int) -> Seq<Definition>
    decreases k,
{
    if k <= 0 {
        seq![]
    } else if defs[k - 1].kind == kind {
        of_kind(defs, kind, k - 1).push(defs[k - 1])
    } else {
        of_kind(defs, kind, k - 1)
    }
}

#[derive(Debug, PartialEq, Eq)]
pub struct DocumentIndex {
    definitions: Vec<Definition>,
    symbols: Vec<Symbol>,
}

impl DocumentIndex {
    /// The indexed definitions, in document order.
    pub closed spec fn defs(&self) -> Seq<Definition> {
        self.definitions@
    }

    /// The symbols of the definitions, one for each, in the same order.
    pub closed spec fn syms(&self) -> Seq<Symbol> {
        self.symbols@
    }

    #[verifier::type_invariant]
    spec fn symbols_follow_definitions(&self) -> bool {
        syms_view(self.symbols@) == self.definitions@.map_values(|d: Definition| def_symbol(d.view_def()))
    }

    /// Indexes a document's definitions.
    pub fn new(semantic: SemanticDocument) -> (index: Self)
        ensures
            index.defs() == semantic.definitions@,
            syms_view(index.syms()) == semantic.definitions@.map_values(
                |d: Definition| def_symbol(d.view_def()),
            ),
    {
        let mut symbols: Vec<Symbol> = Vec::new();
        let n = semantic.definitions.len();
        let mut i: usize = 0;
        while i < n
            invariant
                i <= n,
                n == semantic.definitions@.len(),
                syms_view(symbols@) =~= semantic.definitions@.subrange(0, i as int).map_values(
                    |d: Definition| def_symbol(d.view_def()),
                ),
            decreases n - i,
        {
            let ghost prev = symbols@;
            if let Some(symbol) = semantic.definitions[i].as_symbol() {
                symbols.push(symbol);
            }
            proof {
                let d = semantic.definitions@[i as int];
                assert(semantic.definitions@.subrange(0, i + 1) =~= semantic.definitions@.subrange(
                    0,
                    i as int,
                ).push(d));
                assert(syms_view(symbols@) =~= syms_view(prev).push(def_symbol(d.view_def())));
            }
            i = i + 1;
        }
        proof {
            assert(semantic.definitions@.subrange(0, n as int) =~= semantic.definitions@);
        }
        DocumentIndex { definitions: semantic.definitions, symbols }
    }

    pub fn definitions(&self) -> (r: &[Definition])
        ensures
            r@ == self.defs(),
    {
        self.definitions.as_slice()
    }

    /// The symbols of the definitions: one for each, as `as_symbol` makes it, in order.
    pub fn symbols(&self) -> (r: &[Symbol])
        ensures
            r@ == self.syms(),
            syms_view(r@) == self.defs().map_values(|d: Definition| def_symbol(d.view_def())),
    {
        proof {
            use_type_invariant(self);
        }
        self.symbols.as_slice()
    }

    /// The definitions with this name, in document order.
    pub fn by_name(&self, name: &str) -> (r: Vec<&Definition>)
        ensures
            r@.map_values(|d: &Definition| *d) == named(self.defs(), name@, self.defs().len() as int),
    {
        let mut out: Vec<&Definition> = Vec::new();
        let n = self.definitions.len();
        let mut i: usize = 0;
        while i < n
            invariant
                i <= n,
                n == self.defs().len(),
                out@.map_values(|d: &Definition| *d) =~= named(self.defs(), name@, i as int),
            decreases n - i,
        {
            let d = &self.definitions[i];
            let ghost prev = out@;
            if str_eq(d.name.as_str(), name) {
                out.push(d);
                proof {
                    assert(out@.map_values(|d: &Definition| *d) =~= prev.map_values(
                        |d: &Definition| *d,
                    ).push(*d));
                }
            }
            i = i + 1;
        }
        out
    }

    /// The definitions of this kind, in document order.
    pub fn by_kind(&self, kind: DefinitionKind) -> (r: Vec<&Definition>)
        ensures
            r@.map_values(|d: &Definition| *d) == of_kind(self.defs(), kind, self.defs().len() as int),
    {
        let mut out: Vec<&Definition> = Vec::new();
        let n = self.definitions.len();
        let mut i: usize = 0;
        while i < n
            invariant
                i <= n,
                n == self.defs().len(),
                out@.map_values(|d: &Definition| *d) =~= of_kind(self.defs(), kind, i as int),
            decreases n - i,
        {
            let d = &self.definitions[i];
            let ghost prev = out@;
            if d.kind == kind {
                out.push(d);
                proof {
                    assert(out@.map_values(|d: &Definition| *d) =~= prev.map_values(
                        |d: &Definition| *d,
                    ).push(*d));
                }
            }
            i = i + 1;
        }
        out
    }
}

impl Default for DocumentIndex {
    fn default() -> (index: Self)
        ensures
            index.defs().len() == 0,
            index.syms().len() == 0,
    {
        let definitions: Vec<Definition> = Vec::new();
        let symbols: Vec<Symbol> = Vec::new();
        proof {
            assert(syms_view(symbols@) =~= definitions@.map_values(
                |d: Definition| def_symbol(d.view_def()),
            ));
        }
        DocumentIndex { definitions, symbols }
    }
}


// ---------------------------------------------------------------------------
// The workspace index

/// A definition with the URI of its document.
#[derive(Debug, Clone, PartialEq, Eq)]
pub struct WorkspaceDefinition {
    pub uri: String,
    pub definition: Definition,
}

pub open spec fn wdef_view(w: WorkspaceDefinition) -> (Seq<u8>, DefV) {
    (utf8(w.uri@), w.definition.view_def())
}

/// An indexed document as plain values: URI, text, path relative to its root, definitions.
pub struct IndexEntryV {
    pub uri: Seq<u8>,
    pub text: Seq<u8>,
    pub relative_path: Option<Seq<u8>>,
    pub defs: Seq<Definition>,
}

pub open spec fn uri_lt(a: Seq<u8>, b: Seq<u8>) -> bool {
    bytes_lt(a, b, 0)
}

/// The entries are in increasing order of URI, each URI once.
pub open spec fn uris_sorted(es: Seq<IndexEntryV>) -> bool {
    forall|i: int, j: int| 0 <= i < j < es.len() ==> uri_lt(#[trigger] es[i].uri, #[trigger] es[j].uri)
}

/// Where an entry with URI `k` goes: before the first entry whose URI is not smaller.
pub open spec fn place(es: Seq<IndexEntryV>, k: Seq<u8>, j: int) -> int
    decreases es.len() - j,
{
    if j < 0 || j >= es.len() || !uri_lt(es[j].uri, k) {
        if j < 0 { 0 } else { j }
    } else {
        place(es, k, j + 1)
    }
}

/// `k` is the URI of the entry at `place`.
pub open spec fn found_at(es: Seq<IndexEntryV>, k: Seq<u8>) -> bool {
    place(es, k, 0) < es.len() && es[place(es, k, 0)].uri == k
}

/// The entries with `e` added, or put in place of the entry with its URI.
pub open spec fn upserted(es: Seq<IndexEntryV>, e: IndexEntryV) -> Seq<IndexEntryV> {
    let p = place(es, e.uri, 0);
    if found_at(es, e.uri) {
        es.update(p, e)
    } else {
        es.insert(p, e)
    }
}

/// The entries without the one with URI `k`.
pub open spec fn without(es: Seq<IndexEntryV>, k: Seq<u8>) -> Seq<IndexEntryV> {
    if found_at(es, k) {
        es.remove(place(es, k, 0))
    } else {
        es
    }
}

/// The entries after removing the first `n` URIs in turn, and how many were there.
pub open spec fn without_all(es: Seq<IndexEntryV>, ks: Seq<Seq<u8>>, n: int) -> (Seq<IndexEntryV>, int)
    decreases n,
{
    if n <= 0 {
        (es, 0)
    } else {
        let (rest, count) = without_all(es, ks, n - 1);
        (without(rest, ks[n - 1]), count + if found_at(rest, ks[n - 1]) { 1int } else { 0int })
    }
}

/// The definitions named `name` in the first `k` entries, each with its entry's URI.
pub open spec fn named_in(es: Seq<IndexEntryV>, name: Seq<char>, k: int) -> Seq<(Seq<u8>, DefV)>
    decreases k,
{
    if k <= 0 {
        seq![]
    } else {
        named_in(es, name, k - 1) + named(es[k - 1].defs, name, es[k - 1].defs.len() as int).map_values(
            |d: Definition| (es[k - 1].uri, d.view_def()),
        )
    }
}

pub proof fn lemma_uri_total(a: Seq<u8>, b: Seq<u8>, i: int)
    requires
        0 <= i <= a.len(),
        i <= b.len(),
        a.subrange(0, i) == b.subrange(0, i),
    ensures
        a == b || bytes_lt(a, b, i) || bytes_lt(b, a, i),
    decreases a.len() - i,
{
    if i < a.len() && i < b.len() && a[i] == b[i] {
        assert(a.subrange(0, i + 1) =~= a.subrange(0, i).push(a[i]));
        assert(b.subrange(0, i + 1) =~= b.subrange(0, i).push(b[i]));
        lemma_uri_total(a, b, i + 1);
    } else if i == a.len() && i == b.len() {
        assert(a =~= a.subrange(0, i));
        assert(b =~= b.subrange(0, i));
    }
}

pub(crate) proof fn lemma_trichotomy(a: Seq<u8>, b: Seq<u8>)
    ensures
        a == b || uri_lt(a, b) || uri_lt(b, a),
{
    assert(a.subrange(0, 0) =~= b.subrange(0, 0));
    lemma_uri_total(a, b, 0);
}

proof fn lemma_place(es: Seq<IndexEntryV>, k: Seq<u8>, j: int)
    requires
        0 <= j <= es.len(),
        forall|i: int| 0 <= i < j ==> uri_lt(#[trigger] es[i].uri, k),
    ensures
        j <= place(es, k, j) <= es.len(),
        forall|i: int| 0 <= i < place(es, k, j) ==> uri_lt(#[trigger] es[i].uri, k),
        place(es, k, j) < es.len() ==> !uri_lt(es[place(es, k, j)].uri, k),
    decreases es.len() - j,
{
    if j < es.len() && uri_lt(es[j].uri, k) {
        lemma_place(es, k, j + 1);
    }
}

proof fn lemma_place_facts(es: Seq<IndexEntryV>, k: Seq<u8>)
    requires
        uris_sorted(es),
    ensures
        0 <= place(es, k, 0) <= es.len(),
        forall|i: int| 0 <= i < place(es, k, 0) ==> uri_lt(#[trigger] es[i].uri, k),
        forall|i: int| place(es, k, 0) <= i < es.len() && es[i].uri != k ==> uri_lt(k, #[trigger] es[i].uri),
        forall|i: int| 0 <= i < es.len() && es[i].uri == k ==> i == place(es, k, 0),
{
    lemma_place(es, k, 0);
    let p = place(es, k, 0);
    assert forall|i: int| p <= i < es.len() && es[i].uri != k implies uri_lt(k, #[trigger] es[i].uri) by {
        lemma_trichotomy(es[p].uri, k);
        if i > p {
            lemma_bytes_lt_order(k, es[p].uri, es[i].uri, 0);
            lemma_trichotomy(es[p].uri, k);
            assert(uri_lt(es[p].uri, es[i].uri));
            lemma_trichotomy(es[i].uri, k);
            lemma_bytes_lt_order(es[i].uri, k, es[p].uri, 0);
            lemma_bytes_lt_order(es[p].uri, es[i].uri, es[p].uri, 0);
        } else {
            lemma_trichotomy(es[i].uri, k);
        }
    }
    assert forall|i: int| 0 <= i < es.len() && es[i].uri == k implies i == place(es, k, 0) by {
        if i < p {
            lemma_bytes_lt_order(k, k, k, 0);
        } else if i > p {
            lemma_trichotomy(es[p].uri, k);
            lemma_bytes_lt_order(es[p].uri, k, es[p].uri, 0);
        }
    }
}

proof fn lemma_upserted_sorted(es: Seq<IndexEntryV>, e: IndexEntryV)
    requires
        uris_sorted(es),
    ensures
        uris_sorted(upserted(es, e)),
{
    lemma_place_facts(es, e.uri);
    let p = place(es, e.uri, 0);
    let r = upserted(es, e);
    assert forall|i: int, j: int| 0 <= i < j < r.len() implies uri_lt(#[trigger] r[i].uri, #[trigger] r[j].uri) by {
        if found_at(es, e.uri) {
            if i != p && j != p {
                assert(r[i] == es[i] && r[j] == es[j]);
            } else if i == p {
                assert(r[j] == es[j]);
                assert(es[j].uri != e.uri);
            } else {
                assert(r[i] == es[i]);
            }
        } else {
            if j < p {
                assert(r[i] == es[i] && r[j] == es[j]);
            } else if j == p {
                assert(r[i] == es[i]);
            } else if i == p {
                assert(r[j] == es[j - 1]);
                assert(es[j - 1].uri != e.uri);
            } else if i < p {
                assert(r[i] == es[i] && r[j] == es[j - 1]);
            } else {
                assert(r[i] == es[i - 1] && r[j] == es[j - 1]);
            }
        }
    }
}

proof fn lemma_without_sorted(es: Seq<IndexEntryV>, k: Seq<u8>)
    requires
        uris_sorted(es),
    ensures
        uris_sorted(without(es, k)),
{
    lemma_place(es, k, 0);
    if found_at(es, k) {
        let p = place(es, k, 0);
        let r = es.remove(p);
        assert forall|i: int, j: int| 0 <= i < j < r.len() implies uri_lt(#[trigger] r[i].uri, #[trigger] r[j].uri) by {
            let bi = if i < p { i } else { i + 1 };
            let bj = if j < p { j } else { j + 1 };
            assert(r[i] == es[bi] && r[j] == es[bj]);
        }
    }
}

struct IndexedDocument {
    relative_path: Option<String>,
    text: String,
    index: DocumentIndex,
}

/// The indexed documents of a workspace, in order of URI, and how many invalidations removed
/// one.
pub struct WorkspaceIndex {
    documents: Vec<(String, IndexedDocument)>,
    invalidations: u64,
}

pub open spec fn opt_utf8(s: Option<String>) -> Option<Seq<u8>> {
    match s {
        Some(t) => Some(utf8(t@)),
        None => None,
    }
}

spec fn entry_view(e: (String, IndexedDocument)) -> IndexEntryV {
    IndexEntryV {
        uri: utf8(e.0@),
        text: utf8(e.1.text@),
        relative_path: opt_utf8(e.1.relative_path),
        defs: e.1.index.defs(),
    }
}

impl WorkspaceIndex {
    /// The indexed documents, in order of URI.
    pub closed spec fn entries(&self) -> Seq<IndexEntryV> {
        self.documents@.map_values(|e: (String, IndexedDocument)| entry_view(e))
    }

    pub closed spec fn spec_invalidations(&self) -> u64 {
        self.invalidations
    }

    #[verifier::type_invariant]
    spec fn in_order(&self) -> bool {
        uris_sorted(self.entries())
    }

    /// An empty index.
    pub fn new() -> (r: Self)
        ensures
            r.entries().len() == 0,
            r.spec_invalidations() == 0,
    {
        let r = WorkspaceIndex { documents: Vec::new(), invalidations: 0 };
        assert(r.entries() =~= Seq::<IndexEntryV>::empty());
        r
    }

    /// How many invalidations removed a document.
    pub fn invalidations(&self) -> (n: u64)
        ensures
            n == self.spec_invalidations(),
    {
        self.invalidations
    }

    /// The entry of `uri`, found by its place in the order.
    fn position(&self, uri: &str) -> (r: (usize, bool))
        ensures
            r.0 == place(self.entries(), utf8(uri@), 0),
            r.1 == found_at(self.entries(), utf8(uri@)),
    {
        proof {
            use_type_invariant(self);
            lemma_place(self.entries(), utf8(uri@), 0);
        }
        let ghost es = self.entries();
        let k = uri.as_bytes();
        let mut j: usize = 0;
        while j < self.documents.len() && bytes_lt_exec(self.documents[j].0.as_str().as_bytes(), k)
            invariant
                j <= self.documents@.len(),
                es == self.entries(),
                es.len() == self.documents@.len(),
                k@ == utf8(uri@),
                place(es, k@, j as int) == place(es, k@, 0),
            decreases self.documents@.len() - j,
        {
            assert(es[j as int].uri == utf8(self.documents@[j as int].0@));
            j = j + 1;
        }
        let found = j < self.documents.len() && bytes_eq(self.documents[j].0.as_str().as_bytes(), k);
        proof {
            if j < self.documents@.len() {
                assert(es[j as int].uri == utf8(self.documents@[j as int].0@));
            }
        }
        (j, found)
    }

    /// Indexes a document with no text or relative path.
    pub fn upsert(&mut self, uri: String, semantic: SemanticDocument)
        ensures
            final(self).entries() == upserted(
                old(self).entries(),
                IndexEntryV { uri: utf8(uri@), text: seq![], relative_path: None, defs: semantic.definitions@ },
            ),
            final(self).spec_invalidations() == old(self).spec_invalidations(),
    {
        let empty = String::new();
        assert(utf8(empty@) =~= Seq::<u8>::empty());
        self.upsert_document(uri, empty, semantic, None);
    }

    /// Indexes a document, in place of any earlier one with its URI.
    pub fn upsert_document(&mut self, uri: String, text: String, semantic: SemanticDocument, relative_path: Option<String>)
        ensures
            final(self).entries() == upserted(
                old(self).entries(),
                IndexEntryV {
                    uri: utf8(uri@),
                    text: utf8(text@),
                    relative_path: opt_utf8(relative_path),
                    defs: semantic.definitions@,
                },
            ),
            final(self).spec_invalidations() == old(self).spec_invalidations(),
    {
        proof {
            use_type_invariant(&*self);
        }
        let ghost es = self.entries();
        let (p, found) = self.position(uri.as_str());
        proof {
            lemma_place(es, utf8(uri@), 0);
        }
        let ghost defs = semantic.definitions@;
        let index = DocumentIndex::new(semantic);
        let ghost e = IndexEntryV { uri: utf8(uri@), text: utf8(text@), relative_path: opt_utf8(relative_path), defs };
        let entry = (uri, IndexedDocument { relative_path, text, index });
        assert(entry_view(entry) == e);
        proof {
            lemma_upserted_sorted(es, e);
        }
        let mut documents: Vec<(String, IndexedDocument)> = Vec::new();
        std::mem::swap(&mut documents, &mut self.documents);
        let ghost before = documents@;
        if found {
            documents.set(p, entry);
            assert(documents@.map_values(|x: (String, IndexedDocument)| entry_view(x)) =~= es.update(p as int, e));
        } else {
            documents.insert(p, entry);
            assert(documents@.map_values(|x: (String, IndexedDocument)| entry_view(x)) =~= es.insert(p as int, e));
        }
        self.documents = documents;
    }

    /// Removes the document of `uri` and gives back its index; counts the removal.
    pub fn invalidate(&mut self, uri: &str) -> (r: Option<DocumentIndex>)
        ensures
            final(self).entries() == without(old(self).entries(), utf8(uri@)),
            match r {
                Some(ix) => found_at(old(self).entries(), utf8(uri@)) && ix.defs() == old(self).entries()[place(
                    old(self).entries(),
                    utf8(uri@),
                    0,
                )].defs && final(self).spec_invalidations() == (if old(self).spec_invalidations() == u64::MAX {
                    u64::MAX
                } else {
                    (old(self).spec_invalidations() + 1) as u64
                }),
                None => !found_at(old(self).entries(), utf8(uri@)) && final(self).spec_invalidations()
                    == old(self).spec_invalidations(),
            },
    {
        proof {
            use_type_invariant(&*self);
            lemma_without_sorted(self.entries(), utf8(uri@));
        }
        let ghost es = self.entries();
        let (p, found) = self.position(uri);
        proof {
            lemma_place(es, utf8(uri@), 0);
        }
        if !found {
            return None;
        }
        let mut documents: Vec<(String, IndexedDocument)> = Vec::new();
        std::mem::swap(&mut documents, &mut self.documents);
        let removed = documents.remove(p);
        assert(documents@.map_values(|x: (String, IndexedDocument)| entry_view(x)) =~= es.remove(p as int));
        self.documents = documents;
        self.invalidations = self.invalidations.saturating_add(1);
        let (_, doc) = removed;
        Some(doc.index)
    }

    /// Removes the documents of each URI in turn; how many were indexed.
    pub fn invalidate_many(&mut self, uris: &[String]) -> (n: usize)
        ensures
            ({
                let ks = uris@.map_values(|u: String| utf8(u@));
                &&& final(self).entries() == without_all(old(self).entries(), ks, uris@.len() as int).0
                &&& n == without_all(old(self).entries(), ks, uris@.len() as int).1
            }),
    {
        let ghost ks = uris@.map_values(|u: String| utf8(u@));
        let ghost start = self.entries();
        let mut n: usize = 0;
        let mut i: usize = 0;
        while i < uris.len()
            invariant
                i <= uris@.len(),
                ks == uris@.map_values(|u: String| utf8(u@)),
                self.entries() == without_all(start, ks, i as int).0,
                n == without_all(start, ks, i as int).1,
                n <= i,
            decreases uris@.len() - i,
        {
            assert(ks[i as int] == utf8(uris@[i as int]@));
            if self.invalidate(uris[i].as_str()).is_some() {
                n = n + 1;
            }
            i = i + 1;
        }
        n
    }

    /// The index of the document of `uri`, if it is indexed.
    pub fn document(&self, uri: &str) -> (r: Option<&DocumentIndex>)
        ensures
            match r {
                Some(ix) => found_at(self.entries(), utf8(uri@)) && ix.defs() == self.entries()[place(
                    self.entries(),
                    utf8(uri@),
                    0,
                )].defs,
                None => !found_at(self.entries(), utf8(uri@)),
            },
    {
        let (p, found) = self.position(uri);
        if found {
            Some(&self.documents[p].1.index)
        } else {
            None
        }
    }

    /// The definitions named `name` across the indexed documents, in order of URI and then of
    /// each document.
    pub fn definitions_named(&self, name: &str) -> (r: Vec<WorkspaceDefinition>)
        ensures
            r@.map_values(|w: WorkspaceDefinition| wdef_view(w)) == named_in(self.entries(), name@, self.entries().len() as int),
    {
        let ghost es = self.entries();
        let mut out: Vec<WorkspaceDefinition> = Vec::new();
        let mut k: usize = 0;
        while k < self.documents.len()
            invariant
                k <= self.documents@.len(),
                es == self.entries(),
                es.len() == self.documents@.len(),
                out@.map_values(|w: WorkspaceDefinition| wdef_view(w)) == named_in(es, name@, k as int),
            decreases self.documents@.len() - k,
        {
            let entry = &self.documents[k];
            let found = entry.1.index.by_name(name);
            let ghost mids = out@.map_values(|w: WorkspaceDefinition| wdef_view(w));
            let ghost want = named(es[k as int].defs, name@, es[k as int].defs.len() as int).map_values(
                |d: Definition| (es[k as int].uri, d.view_def()),
            );
            assert(es[k as int].uri == utf8(entry.0@));
            assert(es[k as int].defs == entry.1.index.defs());
            let mut j: usize = 0;
            while j < found.len()
                invariant
                    j <= found@.len(),
                    found@.map_values(|d: &Definition| *d) == named(es[k as int].defs, name@, es[k as int].defs.len() as int),
                    es[k as int].uri == utf8(entry.0@),
                    want == named(es[k as int].defs, name@, es[k as int].defs.len() as int).map_values(
                        |d: Definition| (es[k as int].uri, d.view_def()),
                    ),
                    out@.map_values(|w: WorkspaceDefinition| wdef_view(w)) == mids + want.take(j as int),
                decreases found@.len() - j,
            {
                let ghost prev = out@;
                let d = found[j].duplicate();
                assert(found@.map_values(|d: &Definition| *d)[j as int] == *found@[j as int]);
                out.push(WorkspaceDefinition { uri: entry.0.clone(), definition: d });
                assert(want.take(j + 1) =~= want.take(j as int).push(want[j as int]));
                assert(out@.map_values(|w: WorkspaceDefinition| wdef_view(w)) =~= prev.map_values(
                    |w: WorkspaceDefinition| wdef_view(w),
                ).push(want[j as int]));
                j = j + 1;
            }
            assert(want.take(found@.len() as int) =~= want);
            k = k + 1;
        }
        out
    }
}

} // verus!
