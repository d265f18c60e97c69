//! Open documents: their text (held in a rope), version, file id and line index, and the
//! store that opens, updates and closes them.
use vstd::prelude::*;

use ropey::Rope;

use crate::position::{line_slice_ok, offset_position, position_offset, LineIndex, Position, PositionError, Range};
use crate::formatting::crlf_to_lf;
use crate::lexer::lexes;
use crate::parser::fallback::parsed_by_fallback;
use crate::parser::{parse, ParsedDocument};
use crate::syntax::{FileId, SourceSpan};
use crate::text::{str_eq, utf8};

verus! {

#[verifier::external_type_specification]
#[verifier::external_body]
pub struct ExRope(Rope);

/// The text that a rope holds.
pub uninterp spec fn rope_text(rope: Rope) -> Seq<char>;

/// Wraps `Rope::from_str`: the rope holds the text.
#[verifier::external_body]
fn rope_from_str(text: &str) -> (rope: Rope)
    ensures
        rope_text(rope) == text@,
{
    Rope::from_str(text)
}

/// Wraps `Rope::to_string` (its `Display`, which writes the chunks in order): the text the
/// rope holds.
#[verifier::external_body]
pub(crate) fn rope_to_string(rope: &Rope) -> (text: String)
    ensures
        text@ == rope_text(*rope),
{
    rope.to_string()
}

/// An open document.
#[derive(Debug)]
pub struct Document {
    uri: String,
    version: i32,
    file_id: FileId,
    text: Rope,
    line_index: LineIndex,
    parse_cache: Option<ParsedDocument>,
    dirty: bool,
}

/// A document's URI, file id and text, taken at one moment.
#[derive(Debug, Clone, PartialEq, Eq)]
pub struct DocumentSnapshot {
    pub uri: String,
    pub file_id: FileId,
    pub text: String,
}

/// What a document is, as plain values: URI, version, file id and text.
pub struct DocState {
    pub uri: Seq<char>,
    pub version: i32,
    pub file_id: FileId,
    pub text: Seq<char>,
}

impl Document {
    pub closed spec fn state(&self) -> DocState {
        DocState { uri: self.uri@, version: self.version, file_id: self.file_id, text: rope_text(self.text) }
    }

    /// Whether its parse is to be redone.
    pub closed spec fn spec_dirty(&self) -> bool {
        self.dirty
    }

    /// The line index is the index of the text, and a parse that is not to be redone is the
    /// parse of the text.
    pub closed spec fn wf(&self) -> bool {
        &&& self.line_index.indexes(utf8(rope_text(self.text)))
        &&& !self.dirty ==> (self.parse_cache matches Some(p) && parsed_by_fallback(
            p,
            self.file_id,
            self.uri@,
            rope_text(self.text),
        ))
    }

    /// The cached parse, if any.
    pub closed spec fn spec_parse_cache(&self) -> Option<ParsedDocument> {
        self.parse_cache
    }

    pub fn new(uri: String, version: i32, text: &str, file_id: FileId) -> (d: Self)
        ensures
            d.wf(),
            d.state() == (DocState { uri: uri@, version, file_id, text: text@ }),
            d.spec_dirty(),
    {
        let rope = rope_from_str(text);
        let line_index = LineIndex::new(text);
        Document { uri, version, file_id, text: rope, line_index, parse_cache: None, dirty: true }
    }

    pub fn uri(&self) -> (r: &str)
        ensures
            r@ == self.state().uri,
    {
        self.uri.as_str()
    }

    pub fn version(&self) -> (r: i32)
        ensures
            r == self.state().version,
    {
        self.version
    }

    pub fn file_id(&self) -> (r: FileId)
        ensures
            r == self.state().file_id,
    {
        self.file_id
    }

    pub fn is_dirty(&self) -> (r: bool)
        ensures
            r == self.spec_dirty(),
    {
        self.dirty
    }

    pub fn line_index(&self) -> (r: &LineIndex)
        requires
            self.wf(),
        ensures
            r.indexes(utf8(self.state().text)),
    {
        &self.line_index
    }

    pub fn text(&self) -> (r: String)
        ensures
            r@ == self.state().text,
    {
        rope_to_string(&self.text)
    }

    pub fn snapshot(&self) -> (s: DocumentSnapshot)
        ensures
            s.uri@ == self.state().uri,
            s.file_id == self.state().file_id,
            s.text@ == self.state().text,
    {
        DocumentSnapshot { uri: self.uri.clone(), file_id: self.file_id, text: self.text() }
    }

    /// Takes a new version and text; the parse is to be redone.
    pub fn update(&mut self, version: i32, text: &str)
        ensures
            final(self).wf(),
            final(self).state() == (DocState { version, text: text@, ..old(self).state() }),
            final(self).spec_dirty(),
    {
        self.version = version;
        self.text = rope_from_str(text);
        self.line_index = LineIndex::new(text);
        self.parse_cache = None;
        self.dirty = true;
    }

    /// The parse made when the text was last parsed, if it has been.
    pub fn parse_cache(&self) -> (r: Option<&ParsedDocument>)
        ensures
            r == match self.spec_parse_cache() {
                Some(p) => Some(&p),
                None => None::<&ParsedDocument>,
            },
    {
        self.parse_cache.as_ref()
    }

    /// The parse of the text, made again only when the text changed since the last one.
    pub fn parsed(&mut self) -> (r: &ParsedDocument)
        requires
            old(self).wf(),
            lexes(crlf_to_lf(utf8(old(self).state().text), 0)),
            crlf_to_lf(utf8(old(self).state().text), 0).len() <= isize::MAX,
        ensures
            parsed_by_fallback(*r, old(self).state().file_id, old(self).state().uri, old(self).state().text),
            final(self).state() == old(self).state(),
            final(self).wf(),
            !final(self).spec_dirty(),
    {
        if self.dirty || self.parse_cache.is_none() {
            let text = rope_to_string(&self.text);
            let p = parse(self.file_id, self.uri.as_str(), text.as_str());
            self.parse_cache = Some(p);
            self.dirty = false;
        }
        self.parse_cache.as_ref().unwrap()
    }

    pub fn position_to_offset(&self, position: Position) -> (r: Result<usize, PositionError>)
        requires
            self.wf(),
            line_slice_ok(utf8(self.state().text), position.line as int),
        ensures
            r == position_offset(utf8(self.state().text), position),
    {
        let text = self.text();
        self.line_index.position_to_offset(text.as_str(), position)
    }

    pub fn offset_to_position(&self, offset: usize) -> (r: Result<Position, PositionError>)
        requires
            self.wf(),
        ensures
            r == offset_position(utf8(self.state().text), offset),
    {
        let text = self.text();
        self.line_index.offset_to_position(text.as_str(), offset)
    }

    pub fn range_to_span(&self, range: Range) -> (r: Result<SourceSpan, PositionError>)
        requires
            self.wf(),
            line_slice_ok(utf8(self.state().text), range.start.line as int),
            line_slice_ok(utf8(self.state().text), range.end.line as int),
        ensures
            ({
                let b = utf8(self.state().text);
                match (position_offset(b, range.start), position_offset(b, range.end)) {
                    (Ok(s), Ok(e)) => if s <= e {
                        r == Ok::<SourceSpan, PositionError>(SourceSpan { file_id: self.state().file_id, start: s, end: e })
                    } else {
                        r == Err::<SourceSpan, PositionError>(PositionError::InvalidRange)
                    },
                    (Err(e), _) => r == Err::<SourceSpan, PositionError>(e),
                    (Ok(_), Err(e)) => r == Err::<SourceSpan, PositionError>(e),
                }
            }),
    {
        let text = self.text();
        self.line_index.range_to_span(text.as_str(), self.file_id, range)
    }

    /// The range of a span of this document; a span of another file is refused.
    pub fn span_to_range(&self, span: SourceSpan) -> (r: Result<Range, PositionError>)
        requires
            self.wf(),
        ensures
            span.file_id != self.state().file_id ==> r == Err::<Range, PositionError>(
                PositionError::MismatchedFileId { expected: self.state().file_id, actual: span.file_id },
            ),
            span.file_id == self.state().file_id ==> ({
                let b = utf8(self.state().text);
                if span.start > span.end {
                    r == Err::<Range, PositionError>(PositionError::InvalidRange)
                } else {
                    match (offset_position(b, span.start), offset_position(b, span.end)) {
                        (Ok(s), Ok(e)) => r == Ok::<Range, PositionError>(Range { start: s, end: e }),
                        (Err(e), _) => r == Err::<Range, PositionError>(e),
                        (Ok(_), Err(e)) => r == Err::<Range, PositionError>(e),
                    }
                }
            }),
    {
        if span.file_id.0 != self.file_id.0 {
            return Err(PositionError::MismatchedFileId { expected: self.file_id, actual: span.file_id });
        }
        let text = self.text();
        self.line_index.span_to_range(text.as_str(), span)
    }
}

/// Why the store refused a request: the named document is not open.
#[derive(Debug, Clone, PartialEq, Eq)]
pub enum DocumentStoreError {
    NotFound(String),
}

impl DocumentStoreError {
    pub fn message(&self) -> (m: String)
        ensures
            match self {
                DocumentStoreError::NotFound(u) => m@ == "document not found: "@ + u@,
            },
    {
        match self {
            DocumentStoreError::NotFound(u) => crate::text::concat2("document not found: ", u.as_str()),
        }
    }
}

/// The open documents, each URI once, and the next file id to give out.
#[derive(Debug)]
pub struct DocumentStore {
    documents: Vec<Document>,
    next_file_id: u32,
}

/// The documents as a map from URI to state.
pub open spec fn docs_map(docs: Seq<Document>) -> Map<Seq<char>, DocState>
    decreases docs.len(),
{
    if docs.len() == 0 {
        Map::empty()
    } else {
        docs_map(docs.drop_last()).insert(docs.last().state().uri, docs.last().state())
    }
}

pub open spec fn unique_uris(docs: Seq<Document>) -> bool {
    forall|i: int, j: int| 0 <= i < j < docs.len() ==> (#[trigger] docs[i]).state().uri != (#[trigger] docs[j]).state().uri
}

proof fn lemma_map_has(docs: Seq<Document>, i: int)
    requires
        unique_uris(docs),
        0 <= i < docs.len(),
    ensures
        docs_map(docs).contains_key(docs[i].state().uri),
        docs_map(docs)[docs[i].state().uri] == docs[i].state(),
    decreases docs.len(),
{
    if i < docs.len() - 1 {
        lemma_map_has(docs.drop_last(), i);
        assert(docs.drop_last()[i] == docs[i]);
    }
}

proof fn lemma_map_lacks(docs: Seq<Document>, u: Seq<char>)
    requires
        forall|i: int| 0 <= i < docs.len() ==> (#[trigger] docs[i]).state().uri != u,
    ensures
        !docs_map(docs).contains_key(u),
    decreases docs.len(),
{
    if docs.len() > 0 {
        lemma_map_lacks(docs.drop_last(), u);
    }
}

proof fn lemma_map_update(docs: Seq<Document>, i: int, d: Document)
    requires
        unique_uris(docs),
        0 <= i < docs.len(),
        d.state().uri == docs[i].state().uri,
    ensures
        unique_uris(docs.update(i, d)),
        docs_map(docs.update(i, d)) == docs_map(docs).insert(d.state().uri, d.state()),
    decreases docs.len(),
{
    let t = docs.update(i, d);
    assert forall|a: int, b: int| 0 <= a < b < t.len() implies (#[trigger] t[a]).state().uri != (#[trigger] t[b]).state().uri by {
        assert(t[a].state().uri == docs[a].state().uri);
        assert(t[b].state().uri == docs[b].state().uri);
    }
    if i == docs.len() - 1 {
        assert(t.drop_last() =~= docs.drop_last());
        assert(docs_map(docs.drop_last()).insert(d.state().uri, d.state()) =~= docs_map(docs).insert(d.state().uri, d.state()));
    } else {
        lemma_map_update(docs.drop_last(), i, d);
        assert(t.drop_last() =~= docs.drop_last().update(i, d));
        assert(docs.last().state().uri != d.state().uri);
        assert(docs_map(t) =~= docs_map(docs).insert(d.state().uri, d.state()));
    }
}

proof fn lemma_map_remove(docs: Seq<Document>, i: int)
    requires
        unique_uris(docs),
        0 <= i < docs.len(),
    ensures
        unique_uris(docs.remove(i)),
        docs_map(docs.remove(i)) == docs_map(docs).remove(docs[i].state().uri),
    decreases docs.len(),
{
    let t = docs.remove(i);
    let u = docs[i].state().uri;
    assert forall|a: int, b: int| 0 <= a < b < t.len() implies (#[trigger] t[a]).state().uri != (#[trigger] t[b]).state().uri by {
        let a0 = if a < i { a } else { a + 1 };
        let b0 = if b < i { b } else { b + 1 };
        assert(t[a] == docs[a0]);
        assert(t[b] == docs[b0]);
    }
    if i == docs.len() - 1 {
        assert(t =~= docs.drop_last());
        assert forall|k: int| 0 <= k < t.len() implies (#[trigger] t[k]).state().uri != u by {
            assert(t[k] == docs[k]);
        }
        lemma_map_lacks(t, u);
        assert(docs_map(t) =~= docs_map(docs).remove(u));
    } else {
        lemma_map_remove(docs.drop_last(), i);
        assert(t.drop_last() =~= docs.drop_last().remove(i));
        assert(t.last() == docs.last());
        assert(docs.last().state().uri != u);
        assert(docs_map(t) =~= docs_map(docs).remove(u));
    }
}

impl DocumentStore {
    pub closed spec fn spec_docs(&self) -> Map<Seq<char>, DocState> {
        docs_map(self.documents@)
    }

    pub closed spec fn spec_next_file_id(&self) -> u32 {
        self.next_file_id
    }

    /// Each URI once and each document well formed.
    pub closed spec fn wf(&self) -> bool {
        &&& unique_uris(self.documents@)
        &&& forall|i: int| 0 <= i < self.documents@.len() ==> (#[trigger] self.documents@[i]).wf()
    }

    pub fn new() -> (s: Self)
        ensures
            s.wf(),
            s.spec_docs() == Map::<Seq<char>, DocState>::empty(),
            s.spec_next_file_id() == 0,
    {
        DocumentStore { documents: Vec::new(), next_file_id: 0 }
    }

    fn find(&self, uri: &str) -> (r: Option<usize>)
        ensures
            match r {
                Some(i) => i < self.documents@.len() && self.documents@[i as int].state().uri == uri@,
                None => forall|i: int| 0 <= i < self.documents@.len() ==> (#[trigger] self.documents@[i]).state().uri != uri@,
            },
    {
        let mut k: usize = 0;
        while k < self.documents.len()
            invariant
                k <= self.documents@.len(),
                forall|i: int| 0 <= i < k ==> (#[trigger] self.documents@[i]).state().uri != uri@,
            decreases self.documents@.len() - k,
        {
            if str_eq(self.documents[k].uri(), uri) {
                return Some(k);
            }
            k = k + 1;
        }
        None
    }

    /// Opens (or reopens) a document; a reopened one keeps its file id, a new one takes the
    /// next.
    pub fn open(&mut self, uri: String, version: i32, text: &str) -> (id: FileId)
        requires
            old(self).wf(),
        ensures
            final(self).wf(),
            old(self).spec_docs().contains_key(uri@) ==> id == old(self).spec_docs()[uri@].file_id
                && final(self).spec_next_file_id() == old(self).spec_next_file_id(),
            !old(self).spec_docs().contains_key(uri@) ==> id == FileId(old(self).spec_next_file_id())
                && final(self).spec_next_file_id() == (if old(self).spec_next_file_id() == u32::MAX {
                    u32::MAX
                } else {
                    (old(self).spec_next_file_id() + 1) as u32
                }),
            final(self).spec_docs() == old(self).spec_docs().insert(
                uri@,
                DocState { uri: uri@, version, file_id: id, text: text@ },
            ),
    {
        let ghost u = uri@;
        match self.find(uri.as_str()) {
            Some(i) => {
                let id = self.documents[i].file_id();
                proof {
                    lemma_map_has(self.documents@, i as int);
                }
                let d = Document::new(uri, version, text, id);
                proof {
                    lemma_map_update(self.documents@, i as int, d);
                }
                self.documents.set(i, d);
                assert forall|k: int| 0 <= k < self.documents@.len() implies (#[trigger] self.documents@[k]).wf() by {
                    if k != i {
                        assert(self.documents@[k] == old(self).documents@[k]);
                    }
                }
                id
            },
            None => {
                proof {
                    lemma_map_lacks(self.documents@, u);
                }
                let id = FileId(self.next_file_id);
                self.next_file_id = if self.next_file_id == u32::MAX { u32::MAX } else { self.next_file_id + 1 };
                let d = Document::new(uri, version, text, id);
                let ghost before = self.documents@;
                self.documents.push(d);
                proof {
                    assert(self.documents@.drop_last() =~= before);
                    assert forall|a: int, b: int| 0 <= a < b < self.documents@.len() implies (
                    #[trigger] self.documents@[a]).state().uri != (#[trigger] self.documents@[b]).state().uri by {
                        if b == before.len() {
                            assert(self.documents@[a] == before[a]);
                        } else {
                            assert(self.documents@[a] == before[a] && self.documents@[b] == before[b]);
                        }
                    }
                    assert forall|k: int| 0 <= k < self.documents@.len() implies (#[trigger] self.documents@[k]).wf() by {
                        if k < before.len() {
                            assert(self.documents@[k] == before[k]);
                        }
                    }
                }
                id
            },
        }
    }

    /// Takes a new version and text for an open document; refused when it is not open.
    pub fn update(&mut self, uri: &str, version: i32, text: &str) -> (r: Result<FileId, DocumentStoreError>)
        requires
            old(self).wf(),
        ensures
            final(self).wf(),
            final(self).spec_next_file_id() == old(self).spec_next_file_id(),
            !old(self).spec_docs().contains_key(uri@) ==> (r matches Err(DocumentStoreError::NotFound(u)) && u@ == uri@)
                && final(self).spec_docs() == old(self).spec_docs(),
            old(self).spec_docs().contains_key(uri@) ==> r == Ok::<FileId, DocumentStoreError>(
                old(self).spec_docs()[uri@].file_id,
            ) && final(self).spec_docs() == old(self).spec_docs().insert(
                uri@,
                DocState { version, text: text@, ..old(self).spec_docs()[uri@] },
            ),
    {
        match self.find(uri) {
            None => {
                proof {
                    lemma_map_lacks(self.documents@, uri@);
                }
                Err(DocumentStoreError::NotFound(uri.to_owned()))
            },
            Some(i) => {
                proof {
                    lemma_map_has(self.documents@, i as int);
                }
                let mut d = self.documents.remove(i);
                let ghost before = d.state();
                d.update(version, text);
                let id = d.file_id();
                proof {
                    let t = old(self).documents@;
                    assert(self.documents@ =~= t.remove(i as int));
                    assert(t.remove(i as int).insert(i as int, d) =~= t.update(i as int, d));
                    lemma_map_update(t, i as int, d);
                }
                self.documents.insert(i, d);
                proof {
                    let t = old(self).documents@;
                    assert(self.documents@ =~= t.update(i as int, d));
                    assert forall|k: int| 0 <= k < self.documents@.len() implies (#[trigger] self.documents@[k]).wf() by {
                        if k != i {
                            assert(self.documents@[k] == t[k]);
                        }
                    }
                }
                Ok(id)
            },
        }
    }

    /// Closes a document, giving it back when it was open.
    pub fn close(&mut self, uri: &str) -> (r: Option<Document>)
        requires
            old(self).wf(),
        ensures
            final(self).wf(),
            final(self).spec_next_file_id() == old(self).spec_next_file_id(),
            final(self).spec_docs() == old(self).spec_docs().remove(uri@),
            match r {
                Some(d) => old(self).spec_docs().contains_key(uri@) && d.state() == old(self).spec_docs()[uri@],
                None => !old(self).spec_docs().contains_key(uri@),
            },
    {
        match self.find(uri) {
            None => {
                proof {
                    lemma_map_lacks(self.documents@, uri@);
                    assert(docs_map(self.documents@).remove(uri@) =~= docs_map(self.documents@));
                }
                None
            },
            Some(i) => {
                proof {
                    lemma_map_has(self.documents@, i as int);
                    lemma_map_remove(self.documents@, i as int);
                }
                let d = self.documents.remove(i);
                proof {
                    let t = old(self).documents@;
                    assert forall|k: int| 0 <= k < self.documents@.len() implies (#[trigger] self.documents@[k]).wf() by {
                        if k < i {
                            assert(self.documents@[k] == t[k]);
                        } else {
                            assert(self.documents@[k] == t[k + 1]);
                        }
                    }
                }
                Some(d)
            },
        }
    }

    pub fn get(&self, uri: &str) -> (r: Option<&Document>)
        requires
            self.wf(),
        ensures
            match r {
                Some(d) => self.spec_docs().contains_key(uri@) && d.state() == self.spec_docs()[uri@] && d.wf(),
                None => !self.spec_docs().contains_key(uri@),
            },
    {
        match self.find(uri) {
            None => {
                proof {
                    lemma_map_lacks(self.documents@, uri@);
                }
                None
            },
            Some(i) => {
                proof {
                    lemma_map_has(self.documents@, i as int);
                }
                Some(&self.documents[i])
            },
        }
    }

    pub fn len(&self) -> (n: usize)
        requires
            self.wf(),
        ensures
            n == self.spec_docs().len(),
    {
        proof {
            lemma_map_len(self.documents@);
        }
        self.documents.len()
    }

    pub fn is_empty(&self) -> (r: bool)
        requires
            self.wf(),
        ensures
            r == (self.spec_docs().len() == 0),
    {
        self.len() == 0
    }

    /// A snapshot of each open document.
    pub fn snapshots(&self) -> (v: Vec<DocumentSnapshot>)
        requires
            self.wf(),
        ensures
            v@.len() == self.spec_docs().len(),
            forall|i: int| 0 <= i < v@.len() ==> {
                let s = #[trigger] v@[i];
                self.spec_docs().contains_key(s.uri@) && self.spec_docs()[s.uri@].file_id == s.file_id
                    && self.spec_docs()[s.uri@].text == s.text@
            },
    {
        proof {
            lemma_map_len(self.documents@);
        }
        let mut v: Vec<DocumentSnapshot> = Vec::new();
        let mut k: usize = 0;
        while k < self.documents.len()
            invariant
                k <= self.documents@.len(),
                v@.len() == k,
                unique_uris(self.documents@),
                forall|i: int| 0 <= i < k ==> {
                    let s = #[trigger] v@[i];
                    s.uri@ == self.documents@[i].state().uri && s.file_id == self.documents@[i].state().file_id
                        && s.text@ == self.documents@[i].state().text
                },
            decreases self.documents@.len() - k,
        {
            v.push(self.documents[k].snapshot());
            k = k + 1;
        }
        assert forall|i: int| 0 <= i < v@.len() implies {
            let s = #[trigger] v@[i];
            self.spec_docs().contains_key(s.uri@) && self.spec_docs()[s.uri@].file_id == s.file_id
                && self.spec_docs()[s.uri@].text == s.text@
        } by {
            lemma_map_has(self.documents@, i);
        }
        v
    }
}

proof fn lemma_map_len(docs: Seq<Document>)
    requires
        unique_uris(docs),
    ensures
        docs_map(docs).len() == docs.len(),
        docs_map(docs).dom().finite(),
    decreases docs.len(),
{
    if docs.len() > 0 {
        let t = docs.drop_last();
        assert forall|a: int, b: int| 0 <= a < b < t.len() implies (#[trigger] t[a]).state().uri != (#[trigger] t[b]).state().uri by {
            assert(t[a] == docs[a] && t[b] == docs[b]);
        }
        lemma_map_len(t);
        assert forall|k: int| 0 <= k < t.len() implies (#[trigger] t[k]).state().uri != docs.last().state().uri by {
            assert(t[k] == docs[k]);
        }
        lemma_map_lacks(t, docs.last().state().uri);
    }
}

/// Reading a document back gives what was last written: opening a URI and then looking it
/// up finds the text and version given, under a file id that a reopening keeps.
pub proof fn lemma_open_then_get(before: Map<Seq<char>, DocState>, after: Map<Seq<char>, DocState>, uri: Seq<char>, version: i32, id: FileId, text: Seq<char>)
    requires
        after == before.insert(uri, DocState { uri, version, file_id: id, text }),
    ensures
        after.contains_key(uri),
        after[uri].text == text,
        after[uri].version == version,
        forall|other: Seq<char>| other != uri ==> after.contains_key(other) == before.contains_key(other)
            && (before.contains_key(other) ==> #[trigger] after[other] == before[other]),
{
}

} // verus!
