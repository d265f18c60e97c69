use lymals::document::{Document, DocumentStore, DocumentStoreError};
use lymals::position::Position;
use lymals::syntax::{FileId, SourceSpan};

#[test]
fn store_reopens_documents_under_their_file_id() {
    let mut store = DocumentStore::new();
    let a = store.open("file:///a.luma".to_string(), 1, "a: 1\n");
    let b = store.open("file:///b.luma".to_string(), 1, "b: 2\n");
    assert_eq!(a, FileId(0));
    assert_eq!(b, FileId(1));
    let again = store.open("file:///a.luma".to_string(), 2, "a: 3\n");
    assert_eq!(again, FileId(0));
    assert_eq!(store.len(), 2);
    let doc = store.get("file:///a.luma").unwrap();
    assert_eq!(doc.text(), "a: 3\n");
    assert_eq!(doc.version(), 2);
}

#[test]
fn store_updates_only_open_documents() {
    let mut store = DocumentStore::new();
    assert_eq!(
        store.update("file:///x.luma", 1, "x"),
        Err(DocumentStoreError::NotFound("file:///x.luma".to_string()))
    );
    assert_eq!(
        DocumentStoreError::NotFound("file:///x.luma".to_string()).message(),
        "document not found: file:///x.luma"
    );
    store.open("file:///x.luma".to_string(), 1, "x: 1");
    assert_eq!(store.update("file:///x.luma", 5, "x: 2"), Ok(FileId(0)));
    let doc = store.get("file:///x.luma").unwrap();
    assert_eq!(doc.text(), "x: 2");
    assert!(doc.is_dirty());
    let closed = store.close("file:///x.luma").unwrap();
    assert_eq!(closed.version(), 5);
    assert!(store.get("file:///x.luma").is_none());
    assert!(store.is_empty());
    assert!(store.close("file:///x.luma").is_none());
}

#[test]
fn documents_convert_positions() {
    let doc = Document::new("file:///d.luma".to_string(), 1, "ab\ncd", FileId(4));
    assert_eq!(doc.offset_to_position(4).unwrap(), Position { line: 1, character: 1 });
    assert_eq!(doc.position_to_offset(Position { line: 1, character: 1 }), Ok(4));
    assert!(doc.span_to_range(SourceSpan { file_id: FileId(9), start: 0, end: 1 }).is_err());
    let snapshot = doc.snapshot();
    assert_eq!(snapshot.text, "ab\ncd");
    assert_eq!(snapshot.file_id, FileId(4));
}

#[test]
fn positions_round_trip_at_character_boundaries() {
    let text = "ab\ncé😀x\nlast";
    let index = lymals::position::LineIndex::new(text);
    for offset in 0..=text.len() {
        if text.is_char_boundary(offset) {
            let position = index.offset_to_position(text, offset).unwrap();
            assert_eq!(index.position_to_offset(text, position), Ok(offset));
        }
    }
}

#[test]
fn line_index_from_rope_matches_the_text() {
    let rope = ropey::Rope::from_str("a: 1\nb: 2\n");
    let index = lymals::position::LineIndex::from_rope(&rope);
    assert_eq!(index, lymals::position::LineIndex::new("a: 1\nb: 2\n"));
    assert_eq!(index.line_count(), 3);
}

#[test]
fn parse_is_cached_until_the_text_changes() {
    let mut document = Document::new("file:///a.luma".to_owned(), 1, "a: 1\n", FileId(3));
    assert!(document.parse_cache().is_none());
    assert!(document.is_dirty());
    let first_len = document.parsed().source.text.len();
    assert_eq!(first_len, 5);
    assert!(!document.is_dirty());
    assert!(document.parse_cache().is_some());
    document.update(2, "a: 1\nb: 2\n");
    assert!(document.is_dirty());
    assert!(document.parse_cache().is_none());
    assert_eq!(document.parsed().source.text, "a: 1\nb: 2\n");
}
