//! Why a command on a document failed.
use crate::edit::TransactionError;
use crate::panel::TextPositionError;
use crate::selection::SelectionError;
use vstd::prelude::*;

verus! {

/// Why a command failed. A failed command changes nothing.
#[derive(Clone, Copy, Debug, PartialEq, Eq, Structural)]
pub enum EditorDocumentError {
    /// The pasted cells form no grid, or the target is no cell that can take it.
    InvalidTablePaste,
    /// The selection is not one of this document.
    Selection(SelectionError),
    /// The edits were refused.
    Transaction(TransactionError),
    /// A transient text of an input method is active.
    CompositionActive,
    /// No transient text is active, or none in that block.
    CompositionNotActive,
    /// The image is not the one that was inspected, or cannot be written.
    InvalidImageProperties,
    /// Saved column widths do not fit the document's tables.
    InvalidTableWidths,
    /// The work was given up on request.
    Cancelled,
    /// The result belongs to another revision.
    StaleRevision,
    /// The dragged table divider is not one of this block.
    TableResizeBlock,
    /// The dragged table divider is one of another revision.
    TableResizeRevision,
    /// The document has no block of that number.
    BlockOutOfBounds { index: usize, blocks: usize },
    /// The offset is no position in the source.
    Position(TextPositionError),
}

} // verus!
