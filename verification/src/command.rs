//! Commands that keys and menus stand for.
use crate::document::table_edit::TableEdit;
use crate::offset::ByteOffset;
use vstd::prelude::*;

verus! {

/// A command on a document.
#[derive(Clone, Copy, Debug, PartialEq, Eq, Structural)]
pub enum EditorCommand {
    Undo,
    Redo,
    InsertNewline,
    IndentList,
    OutdentList,
    DeleteBackward,
    DeleteForward,
    MoveLeft,
    MoveRight,
    MoveWordLeft,
    MoveWordRight,
    EditTable(TableEdit),
    SelectTableCells { anchor: ByteOffset, focus: ByteOffset },
}

impl EditorCommand {
    /// Takes the newest step back.
    pub fn undo() -> (r: EditorCommand)
        ensures
            r == EditorCommand::Undo,
    {
        EditorCommand::Undo
    }

    /// Makes the step that was taken back last once more.
    pub fn redo() -> (r: EditorCommand)
        ensures
            r == EditorCommand::Redo,
    {
        EditorCommand::Redo
    }

    /// Breaks the line.
    pub fn insert_newline() -> (r: EditorCommand)
        ensures
            r == EditorCommand::InsertNewline,
    {
        EditorCommand::InsertNewline
    }

    /// Moves list items one level in.
    pub fn indent_list() -> (r: EditorCommand)
        ensures
            r == EditorCommand::IndentList,
    {
        EditorCommand::IndentList
    }

    /// Moves list items one level out.
    pub fn outdent_list() -> (r: EditorCommand)
        ensures
            r == EditorCommand::OutdentList,
    {
        EditorCommand::OutdentList
    }

    /// Moves the caret one word to the left.
    pub fn move_word_left() -> (r: EditorCommand)
        ensures
            r == EditorCommand::MoveWordLeft,
    {
        EditorCommand::MoveWordLeft
    }

    /// Moves the caret one word to the right.
    pub fn move_word_right() -> (r: EditorCommand)
        ensures
            r == EditorCommand::MoveWordRight,
    {
        EditorCommand::MoveWordRight
    }
}

} // verus!
