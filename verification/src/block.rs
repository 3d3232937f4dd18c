//! What the rest of the library reads of a parsed block.
use crate::offset::TextRange;
use vstd::prelude::*;

verus! {

/// The kind of a block.
#[derive(Clone, Copy, Debug, PartialEq, Eq, Hash, Structural)]
pub enum BlockKind {
    Paragraph,
    Heading { level: u8 },
    FencedCodeBlock { marker: char, closed: bool },
    IndentedCode,
    BlankLine,
    ReferenceDefinition,
    HtmlBlock,
    BlockQuote { depth: u32 },
    /// Any other kind, by number.
    Other(u32),
}

/// A block's place and kind.
#[derive(Clone, Copy, Debug, PartialEq, Eq, Hash, Structural)]
pub struct BlockKey {
    pub range: TextRange,
    pub kind: BlockKind,
}

} // verus!
