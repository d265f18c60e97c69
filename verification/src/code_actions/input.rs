//! What code actions read: the document's text, its lines, its line index, the parsed
//! source and the indexed syntax.
use vstd::prelude::*;
use vstd::utf8::valid_utf8;

use crate::code_actions::syntax_index::{
    dirs_view, entries_view, scalars_view, DirV, EntV, IndexedDirective, ScalV, SyntaxIndex,
};
use crate::formatting::{Line, LineT, lines_view, split_lines_spec};
use crate::position::LineIndex;
use crate::syntax::{FileId, SourceText};
use crate::text::utf8;

verus! {

/// The values that the actions are computed from.
pub struct ActionCtx {
    /// The document's text.
    pub raw: Seq<u8>,
    /// The text that the parser read (line feeds only).
    pub norm: Seq<u8>,
    pub file_id: FileId,
    pub dirs: Seq<DirV>,
    pub entries: Seq<EntV>,
    pub scalars: Seq<ScalV>,
    /// The directives that open the first document.
    pub leading: Seq<DirV>,
}

impl ActionCtx {
    pub open spec fn lines(self) -> Seq<LineT> {
        split_lines_spec(self.raw)
    }
}

pub(crate) struct ActionInput {
    pub(crate) text: String,
    pub(crate) file_id: FileId,
    pub(crate) index: LineIndex,
    pub(crate) lines: Vec<Line>,
    pub(crate) source: SourceText,
    pub(crate) syntax: SyntaxIndex,
    pub(crate) leading: Vec<IndexedDirective>,
}

impl ActionInput {
    pub(crate) open spec fn ctx(&self) -> ActionCtx {
        ActionCtx {
            raw: utf8(self.text@),
            norm: self.source.bytes(),
            file_id: self.file_id,
            dirs: dirs_view(self.syntax.directives@),
            entries: entries_view(self.syntax.entries@),
            scalars: scalars_view(self.syntax.scalars@),
            leading: dirs_view(self.leading@),
        }
    }

    pub(crate) open spec fn wf(&self) -> bool {
        &&& self.index.indexes(utf8(self.text@))
        &&& lines_view(self.lines@) == split_lines_spec(utf8(self.text@))
        &&& forall|k: int| 0 <= k < self.lines@.len() ==> valid_utf8(#[trigger] self.lines@[k].content@)
        &&& self.source.file_id == self.file_id
    }
}

} // verus!
