//! What is laid out, in what order, and in which state of the document.
use crate::block::{BlockKey, BlockKind};
use crate::document::error::EditorDocumentError;
use crate::edit::TextBuffer;
use crate::hidden::HiddenRanges;
use crate::layout::{
    gets_block, BlockLayoutSource, LayoutBackend, LayoutCache, LayoutKey, MadeLayout,
};
use crate::offset::{ByteOffset, Revision, TextRange};
use crate::presentation::{
    path_wf, quote_margin, quote_rule, tree_wf, PresentationKind, PresentationTree, QuoteMargin,
};
use crate::search::SearchState;
use crate::viewport::{
    is_height, same_height, waiting, ViewportEntry, ViewportError, ViewportLayout, ViewportRange,
};
use vstd::prelude::*;

verus! {

/// What the rules on a block's box read of it.
#[derive(Clone, Copy, Debug, PartialEq, Eq, Structural)]
pub struct BoxBlock {
    pub kind: BlockKind,
    /// Whether it is a table.
    pub table: bool,
    /// Whether it stands for an empty paragraph.
    pub empty_paragraph: bool,
}

/// The first block from `from` on that is not a blank line, or the number of blocks.
pub open spec fn first_text_block(blocks: Seq<BoxBlock>, from: int) -> int
    decreases blocks.len() - from,
{
    if 0 <= from < blocks.len() && blocks[from].kind == BlockKind::BlankLine {
        first_text_block(blocks, from + 1)
    } else {
        from
    }
}

/// What stands above a block's text, besides the top inset of its kind.
#[derive(Debug)]
pub enum ContentOrigin {
    /// Not even the inset.
    Top,
    /// Nothing.
    Inset,
    /// The largest of the margins of the quotations it opens.
    Quotes(Vec<QuoteMargin>),
    /// The margin of a table.
    Table,
    /// The margin above a heading.
    Heading,
}

/// The margins above the quotations among the first `count` steps of `path`.
pub open spec fn quotes_on_path(
    tree: PresentationTree,
    path: Seq<usize>,
    count: int,
) -> Seq<QuoteMargin>
    decreases count,
{
    if count <= 0 {
        Seq::empty()
    } else {
        let before = quotes_on_path(tree, path, count - 1);
        let id = path[count - 1] as int;
        if tree.nodes@[id].kind == PresentationKind::Quote {
            before.push(quote_rule(tree.nodes@, id, false))
        } else {
            before
        }
    }
}

/// Whether the leaf of `path` stands directly in the document.
pub open spec fn top_level(tree: PresentationTree, path: Seq<usize>) -> bool {
    path.len() > 0 && match tree.nodes@[path.last() as int].parent {
        Some(p) => tree.nodes@[p as int].kind == PresentationKind::Document,
        None => false,
    }
}

/// Whether `origin` is what stands above block `index`: only the first block of the
/// document that is not blank keeps a margin there.
pub open spec fn origin_is(
    origin: ContentOrigin,
    source_mode: bool,
    tree: PresentationTree,
    blocks: Seq<BoxBlock>,
    index: int,
    path: Seq<usize>,
) -> bool {
    let quotes = quotes_on_path(tree, path, path.len() as int);
    if source_mode || index >= blocks.len() {
        origin is Top
    } else if first_text_block(blocks, 0) != index {
        origin is Inset
    } else if quotes.len() > 0 {
        origin is Quotes && origin->Quotes_0@ == quotes
    } else if blocks[index].table && top_level(tree, path) {
        origin is Table
    } else if blocks[index].kind is Heading && top_level(tree, path) {
        origin is Heading
    } else {
        origin is Inset
    }
}

fn find_text_block(blocks: &[BoxBlock]) -> (r: usize)
    ensures
        r == first_text_block(blocks@, 0),
{
    let mut i: usize = 0;
    while i < blocks.len() && blocks[i].kind == BlockKind::BlankLine
        invariant
            i <= blocks@.len(),
            first_text_block(blocks@, i as int) == first_text_block(blocks@, 0),
        decreases blocks@.len() - i,
    {
        i += 1;
    }
    i
}

/// What stands above a block's text. The first heading, table or quotation of a
/// document keeps the margin above it.
pub fn block_content_origin(
    source_mode: bool,
    tree: &PresentationTree,
    blocks: &[BoxBlock],
    index: usize,
    path: &[usize],
) -> (r: ContentOrigin)
    requires
        tree_wf(tree.nodes@),
        path_wf(tree.nodes@, path@),
    ensures
        origin_is(r, source_mode, *tree, blocks@, index as int, path@),
{
    if source_mode || index >= blocks.len() {
        return ContentOrigin::Top;
    }
    if find_text_block(blocks) != index {
        return ContentOrigin::Inset;
    }
    let mut quotes: Vec<QuoteMargin> = Vec::new();
    let mut i: usize = 0;
    while i < path.len()
        invariant
            i <= path@.len(),
            tree_wf(tree.nodes@),
            path_wf(tree.nodes@, path@),
            quotes@ == quotes_on_path(*tree, path@, i as int),
        decreases path@.len() - i,
    {
        assert(path@[i as int] < tree.nodes@.len());
        let id = path[i];
        if tree.nodes[id].kind == PresentationKind::Quote {
            quotes.push(quote_margin(tree, id, false));
        }
        i += 1;
    }
    if quotes.len() > 0 {
        return ContentOrigin::Quotes(quotes);
    }
    let is_heading = match blocks[index].kind {
        BlockKind::Heading { level: _ } => true,
        _ => false,
    };
    if !blocks[index].table && !is_heading {
        return ContentOrigin::Inset;
    }
    if path.len() == 0 {
        return ContentOrigin::Inset;
    }
    let leaf = path[path.len() - 1];
    assert(path@[path@.len() - 1] < tree.nodes@.len());
    assert(tree.nodes@[leaf as int].parent matches Some(p) ==> p < leaf);
    let direct = match tree.nodes[leaf].parent {
        Some(p) => tree.nodes[p].kind == PresentationKind::Document,
        None => false,
    };
    if !direct {
        ContentOrigin::Inset
    } else if blocks[index].table {
        ContentOrigin::Table
    } else {
        ContentOrigin::Heading
    }
}

/// How high a block's box is.
#[derive(Clone, Copy, Debug, PartialEq, Eq, Structural)]
pub enum BoxHeight {
    /// As high as its text.
    Content,
    /// Nothing.
    Nothing,
    /// As high as its text, and at least one line.
    ActiveLine,
    /// As high as its text, or one line for an empty paragraph, with the insets of its
    /// kind and the gap to the block below.
    Full { empty_line: bool, next: Option<usize> },
}

/// Whether `index` lies in `span`.
pub open spec fn in_span(span: Option<ViewportRange>, index: int) -> bool {
    span matches Some(s) && s.start <= index < s.end
}

/// The blank line that the caret is in. A selection that ends on a blank line is no
/// caret.
pub open spec fn active_blank(
    blocks: Seq<BoxBlock>,
    focus_block: Option<usize>,
    editing: bool,
) -> Option<usize> {
    match focus_block {
        Some(at) if editing && at < blocks.len() && blocks[at as int].kind == BlockKind::BlankLine
            => Some(at),
        _ => None,
    }
}

/// Whether a block takes room: it is not blank, or the caret is in it, or it stands
/// for an empty paragraph.
pub open spec fn takes_room(blocks: Seq<BoxBlock>, active: Option<usize>, index: int) -> bool {
    blocks[index].kind != BlockKind::BlankLine || active == Some(index as usize)
        || blocks[index].empty_paragraph
}

/// The first block from `from` on that takes room.
pub open spec fn next_with_room(
    blocks: Seq<BoxBlock>,
    active: Option<usize>,
    from: int,
) -> Option<usize>
    decreases blocks.len() - from,
{
    if from < 0 || from >= blocks.len() {
        None
    } else if takes_room(blocks, active, from) {
        Some(from as usize)
    } else {
        next_with_room(blocks, active, from + 1)
    }
}

/// How high the box of block `index` is. A transient text that covers several blocks
/// is shown by the first of them.
pub open spec fn box_height(
    blocks: Seq<BoxBlock>,
    index: int,
    span: Option<ViewportRange>,
    active: Option<usize>,
) -> BoxHeight {
    if index >= blocks.len() {
        BoxHeight::Content
    } else if in_span(span, index) && index > span->Some_0.start {
        BoxHeight::Nothing
    } else if blocks[index].kind == BlockKind::BlankLine && !blocks[index].empty_paragraph {
        if active == Some(index as usize) {
            BoxHeight::ActiveLine
        } else {
            BoxHeight::Nothing
        }
    } else {
        BoxHeight::Full {
            empty_line: blocks[index].kind == BlockKind::BlankLine,
            next: next_with_room(
                blocks,
                active,
                if span is Some && span->Some_0.start == index {
                    span->Some_0.end as int
                } else {
                    index + 1
                },
            ),
        }
    }
}

/// How high a block's box is. `composition` is the span of blocks that a transient
/// text covers, `focus_block` the block of the caret or of the transient text, and
/// `editing` whether there is a transient text or an empty selection.
pub fn block_box_height(
    blocks: &[BoxBlock],
    index: usize,
    composition: Option<ViewportRange>,
    focus_block: Option<usize>,
    editing: bool,
) -> (r: BoxHeight)
    ensures
        r == box_height(
            blocks@,
            index as int,
            composition,
            active_blank(blocks@, focus_block, editing),
        ),
{
    let count = blocks.len();
    if index >= count {
        return BoxHeight::Content;
    }
    if let Some(span) = composition {
        if index > span.start && index < span.end {
            return BoxHeight::Nothing;
        }
    }
    let active: Option<usize> = match focus_block {
        Some(at) => {
            if editing && at < count && blocks[at].kind == BlockKind::BlankLine {
                Some(at)
            } else {
                None
            }
        },
        None => None,
    };
    let blank = blocks[index].kind == BlockKind::BlankLine;
    if blank && !blocks[index].empty_paragraph {
        return if active == Some(index) {
            BoxHeight::ActiveLine
        } else {
            BoxHeight::Nothing
        };
    }
    let following: usize = match composition {
        Some(span) => {
            if span.start == index {
                span.end
            } else {
                index + 1
            }
        },
        None => index + 1,
    };
    let mut next: usize = following;
    while next < count && blocks[next].kind == BlockKind::BlankLine && active != Some(next)
        && !blocks[next].empty_paragraph
        invariant
            following <= next,
            count == blocks@.len(),
            next_with_room(blocks@, active, next as int) == next_with_room(
                blocks@,
                active,
                following as int,
            ),
        decreases blocks@.len() - next,
    {
        next += 1;
    }
    let found = if next < count {
        Some(next)
    } else {
        None
    };
    BoxHeight::Full { empty_line: blank, next: found }
}

/// What of a transient text a block shows.
#[derive(Clone, Copy, Debug, PartialEq, Eq, Structural)]
pub struct CompositionPart {
    /// The source that is covered in the block.
    pub replacement: TextRange,
    /// Whether the text stands here; else the source is only covered.
    pub shows_text: bool,
}

/// What block `index`, at `block`, shows of a transient text that covers `replacement`
/// in the blocks of `span`.
pub open spec fn part_of_composition(
    span: Option<ViewportRange>,
    index: int,
    replacement: TextRange,
    block: TextRange,
) -> Option<CompositionPart> {
    match span {
        None => None,
        Some(s) => if s.end - s.start == 1 {
            Some(CompositionPart { replacement, shows_text: true })
        } else if index == s.start {
            let start = if replacement.start.value >= block.start.value {
                replacement.start
            } else {
                block.start
            };
            if start.value <= block.end.value {
                Some(
                    CompositionPart {
                        replacement: TextRange { start, end: block.end },
                        shows_text: true,
                    },
                )
            } else {
                None
            }
        } else if s.start <= index < s.end {
            let end = if replacement.end.value <= block.end.value {
                replacement.end
            } else {
                block.end
            };
            if block.start.value <= end.value {
                Some(
                    CompositionPart {
                        replacement: TextRange { start: block.start, end },
                        shows_text: false,
                    },
                )
            } else {
                None
            }
        } else {
            None
        },
    }
}

/// What a block shows of the transient text. Over several blocks the first shows the
/// text in place of its own rest, and the others only lose their part.
pub fn block_visual_for_composition(
    span: Option<ViewportRange>,
    index: usize,
    replacement: TextRange,
    block: TextRange,
) -> (r: Result<CompositionPart, EditorDocumentError>)
    requires
        span matches Some(s) ==> s.wf(),
    ensures
        match part_of_composition(span, index as int, replacement, block) {
            Some(part) => r == Ok::<CompositionPart, EditorDocumentError>(part),
            None => r == Err::<CompositionPart, EditorDocumentError>(
                EditorDocumentError::CompositionNotActive,
            ),
        },
{
    let s = match span {
        Some(s) => s,
        None => return Err(EditorDocumentError::CompositionNotActive),
    };
    if s.len() == 1 {
        return Ok(CompositionPart { replacement, shows_text: true });
    }
    if index == s.start {
        let start = if replacement.start.value >= block.start.value {
            replacement.start
        } else {
            block.start
        };
        match TextRange::new(start, block.end) {
            Some(part) => Ok(CompositionPart { replacement: part, shows_text: true }),
            None => Err(EditorDocumentError::CompositionNotActive),
        }
    } else if s.start <= index && index < s.end {
        let end = if replacement.end.value <= block.end.value {
            replacement.end
        } else {
            block.end
        };
        match TextRange::new(block.start, end) {
            Some(part) => Ok(CompositionPart { replacement: part, shows_text: false }),
            None => Err(EditorDocumentError::CompositionNotActive),
        }
    } else {
        Err(EditorDocumentError::CompositionNotActive)
    }
}

/// A transient text is shown once: of the blocks that it covers, only the first shows
/// it.
pub proof fn law_composition_is_shown_once(
    span: ViewportRange,
    index: int,
    replacement: TextRange,
    block: TextRange,
)
    requires
        span.start <= index < span.end,
    ensures
        part_of_composition(Some(span), index, replacement, block) matches Some(part)
            ==> part.shows_text == (index == span.start),
{
}

/// The block that holds a transient text all by itself.
pub fn composition_block_index(span: Option<ViewportRange>) -> (r: Option<usize>)
    requires
        span matches Some(s) ==> s.wf(),
    ensures
        r == (match span {
            Some(s) => if s.end - s.start == 1 {
                Some(s.start)
            } else {
                None
            },
            None => None,
        }),
{
    match span {
        Some(s) => {
            if s.len() == 1 {
                Some(s.start)
            } else {
                None
            }
        },
        None => None,
    }
}

/// What a block is laid out from.
#[derive(Clone, Copy, Debug, PartialEq, Eq, Structural)]
pub enum VisualRoute {
    /// Its source with the transient text.
    Composition,
    /// Its source with the syntax at the caret shown.
    Reveal,
    /// Its source alone.
    Canonical,
}

/// What a block is laid out from. A transient text goes first; the caret shows syntax
/// only in its own block.
pub fn block_layout_for_visual_state(
    index: usize,
    composition: Option<ViewportRange>,
    reveal: Option<usize>,
) -> (r: VisualRoute)
    ensures
        r == (if in_span(composition, index as int) {
            VisualRoute::Composition
        } else if reveal == Some(index) {
            VisualRoute::Reveal
        } else {
            VisualRoute::Canonical
        }),
{
    if let Some(span) = composition {
        if span.start <= index && index < span.end {
            return VisualRoute::Composition;
        }
    }
    if reveal == Some(index) {
        VisualRoute::Reveal
    } else {
        VisualRoute::Canonical
    }
}

/// A block's layout: one that the cache keeps, by its place there, or one that was made for
/// the moment and is not kept.
#[derive(Debug)]
pub enum BlockLayout<V> {
    Kept(usize),
    Transient(MadeLayout<V>),
}

/// Whether a layout is only for the moment: a quick measurement of a block that shows a
/// transient text or the syntax at the caret. Neither moves the revision on, so a layout
/// that was kept could be shown when it no longer holds.
pub open spec fn is_transient(route: VisualRoute, backend: LayoutBackend) -> bool {
    route != VisualRoute::Canonical && backend == LayoutBackend::Metrics
}

impl<V> LayoutCache<V> {
    /// Lays a block out as it is shown at the moment. A layout that is only for the moment
    /// is made anew and never enters the cache.
    pub fn layout_for_visual_state<E, F: FnOnce() -> Result<MadeLayout<V>, E>>(
        &mut self,
        route: VisualRoute,
        revision: Revision,
        key: LayoutKey,
        source: BlockLayoutSource<'_>,
        build: F,
    ) -> (r: Result<BlockLayout<V>, E>)
        requires
            build.requires(()),
        ensures
            is_transient(route, key.backend) ==> *final(self) == *old(self) && match r {
                Ok(BlockLayout::Transient(made)) => build.ensures((), Ok(made)),
                Ok(BlockLayout::Kept(_)) => false,
                Err(error) => build.ensures((), Err(error)),
            },
            !is_transient(route, key.backend) ==> gets_block(
                *old(self),
                *final(self),
                revision,
                key,
                source,
                build,
                match r {
                    Ok(layout) => Ok(layout->Kept_0),
                    Err(error) => Err(error),
                },
            ),
            !is_transient(route, key.backend) ==> (r matches Ok(layout) ==> {
                let place = layout->Kept_0 as int;
                &&& layout is Kept
                &&& place == final(self).entries@.len() - 1
                &&& final(self).entries@[place].key == key
                &&& final(self).entries@[place].content.equals(*source.content)
            }),
            old(self).bounded() ==> final(self).bounded(),
    {
        if key.backend == LayoutBackend::Metrics && route != VisualRoute::Canonical {
            return match build() {
                Ok(made) => Ok(BlockLayout::Transient(made)),
                Err(error) => Err(error),
            };
        }
        match self.get_or_build_block(revision, key, source, build) {
            Ok(place) => Ok(BlockLayout::Kept(place)),
            Err(error) => Err(error),
        }
    }
}

/// The bytes that hidden ranges hide.
pub open spec fn hidden_total(hidden: Seq<TextRange>) -> int
    decreases hidden.len(),
{
    if hidden.len() == 0 {
        0
    } else {
        hidden_total(hidden.drop_last()) + (hidden.last().end.value - hidden.last().start.value)
    }
}

/// Counts the bytes that are hidden.
pub fn hidden_bytes(hidden: &HiddenRanges) -> (r: u64)
    requires
        crate::hidden::hidden_ordered(hidden.ranges@),
    ensures
        r == hidden_total(hidden.ranges@),
{
    let ghost ranges = hidden.ranges@;
    let mut total: u64 = 0;
    let mut i: usize = 0;
    assert(ranges.take(0) =~= Seq::empty());
    while i < hidden.ranges.len()
        invariant
            i <= ranges.len(),
            ranges == hidden.ranges@,
            crate::hidden::hidden_ordered(ranges),
            total == hidden_total(ranges.take(i as int)),
            i > 0 ==> total <= ranges[i - 1].end.value,
            i == 0 ==> total == 0,
        decreases ranges.len() - i,
    {
        let range = hidden.ranges[i];
        proof {
            assert(ranges.take(i + 1).drop_last() =~= ranges.take(i as int));
            assert(ranges[i as int].start.value < ranges[i as int].end.value);
            if i > 0 {
                assert(ranges[i - 1].end.value <= ranges[i as int].start.value);
            }
        }
        total = total + (range.end.value - range.start.value);
        i += 1;
    }
    assert(ranges.take(ranges.len() as int) =~= ranges);
    total
}

/// The block in which the caret shows syntax: the one it is in, where less is hidden
/// with the caret than without. Neither while a transient text is active nor while
/// cells are selected is anything shown.
pub fn selection_reveal_block_index(
    composing: bool,
    cells_selected: bool,
    focus_block: Option<usize>,
    canonical: &HiddenRanges,
    revealed: &HiddenRanges,
) -> (r: Option<usize>)
    requires
        crate::hidden::hidden_ordered(canonical.ranges@),
        crate::hidden::hidden_ordered(revealed.ranges@),
    ensures
        r == (if !composing && !cells_selected && hidden_total(revealed.ranges@) < hidden_total(
            canonical.ranges@,
        ) {
            focus_block
        } else {
            None
        }),
{
    if composing || cells_selected {
        return None;
    }
    if hidden_bytes(revealed) < hidden_bytes(canonical) {
        focus_block
    } else {
        None
    }
}

/// The part of the selection for which syntax is shown: what lies in the block that
/// shows some, or the caret.
pub fn selection_reveal_range(
    selection: TextRange,
    focus: ByteOffset,
    block: Option<TextRange>,
) -> (r: TextRange)
    ensures
        r == (match block {
            None => TextRange { start: focus, end: focus },
            Some(range) => {
                let start = if selection.start.value >= range.start.value {
                    selection.start
                } else {
                    range.start
                };
                let end = if selection.end.value <= range.end.value {
                    selection.end
                } else {
                    range.end
                };
                if selection.start.value == selection.end.value {
                    selection
                } else if start.value <= end.value {
                    TextRange { start, end }
                } else {
                    TextRange { start: focus, end: focus }
                }
            },
        }),
{
    let range = match block {
        Some(range) => range,
        None => return TextRange::empty(focus),
    };
    if selection.is_empty() {
        return selection;
    }
    let start = if selection.start.value >= range.start.value {
        selection.start
    } else {
        range.start
    };
    let end = if selection.end.value <= range.end.value {
        selection.end
    } else {
        range.end
    };
    match TextRange::new(start, end) {
        Some(part) => part,
        None => TextRange::empty(focus),
    }
}

/// A block, or why there is none.
pub fn block_at(blocks: &[BlockKey], index: usize) -> (r: Result<BlockKey, EditorDocumentError>)
    ensures
        r == (if index < blocks@.len() {
            Ok::<BlockKey, EditorDocumentError>(blocks@[index as int])
        } else {
            Err::<BlockKey, EditorDocumentError>(
                EditorDocumentError::BlockOutOfBounds { index, blocks: blocks@.len() as usize },
            )
        }),
{
    if index < blocks.len() {
        Ok(blocks[index])
    } else {
        Err(EditorDocumentError::BlockOutOfBounds { index, blocks: blocks.len() })
    }
}

/// The blocks from `start` up to `end`.
pub open spec fn run_of(start: int, end: int) -> Seq<usize>
    decreases end - start,
{
    if start >= end {
        Seq::empty()
    } else {
        run_of(start, end - 1).push((end - 1) as usize)
    }
}

/// The blocks from `start` up to `end` that are not in `span`.
pub open spec fn run_outside(start: int, end: int, span: Option<ViewportRange>) -> Seq<usize>
    decreases end - start,
{
    if start >= end {
        Seq::empty()
    } else {
        let before = run_outside(start, end - 1, span);
        if in_span(span, end - 1) {
            before
        } else {
            before.push((end - 1) as usize)
        }
    }
}

/// The order in which blocks are measured: first those in a transient state, wherever
/// they are, since all that follows them moves with them; then the other visible ones.
pub open spec fn measure_sequence(
    transient: Option<ViewportRange>,
    visible: ViewportRange,
) -> Seq<usize> {
    let first = match transient {
        Some(s) => run_of(s.start as int, s.end as int),
        None => Seq::empty(),
    };
    first + run_outside(visible.start as int, visible.end as int, transient)
}

/// The order in which blocks are measured.
pub fn measure_order(transient: Option<ViewportRange>, visible: ViewportRange) -> (r: Vec<usize>)
    ensures
        r@ == measure_sequence(transient, visible),
{
    let mut out: Vec<usize> = Vec::new();
    if let Some(s) = transient {
        let mut i: usize = s.start;
        while i < s.end
            invariant
                s.start <= i,
                i <= s.end || i == s.start,
                out@ == run_of(s.start as int, i as int),
            decreases s.end - i,
        {
            out.push(i);
            i += 1;
        }
        assert(out@ == run_of(s.start as int, s.end as int));
    }
    let ghost first = out@;
    let mut i: usize = visible.start;
    assert(first + run_outside(visible.start as int, visible.start as int, transient) =~= first);
    while i < visible.end
        invariant
            visible.start <= i,
            i <= visible.end || i == visible.start,
            out@ == first + run_outside(visible.start as int, i as int, transient),
        decreases visible.end - i,
    {
        let skip = match transient {
            Some(s) => s.start <= i && i < s.end,
            None => false,
        };
        let ghost so_far = run_outside(visible.start as int, i as int, transient);
        if !skip {
            out.push(i);
            assert(first + so_far.push(i) =~= (first + so_far).push(i));
        }
        i += 1;
    }
    assert(run_outside(visible.start as int, visible.end as int, transient) == run_outside(
        visible.start as int,
        i as int,
        transient,
    ));
    out
}

/// Every block that is visible or in a transient state is measured.
pub proof fn law_all_blocks_are_measured(
    transient: Option<ViewportRange>,
    visible: ViewportRange,
    index: usize,
)
    requires
        visible.start <= index < visible.end || in_span(transient, index as int),
    ensures
        measure_sequence(transient, visible).contains(index),
{
    let all = measure_sequence(transient, visible);
    if in_span(transient, index as int) {
        let s = transient->Some_0;
        let first = run_of(s.start as int, s.end as int);
        lemma_run_of(s.start as int, s.end as int, index);
        let k = first.index_of(index);
        assert(all[k] == index);
    } else {
        let rest = run_outside(visible.start as int, visible.end as int, transient);
        lemma_run_outside(visible.start as int, visible.end as int, transient, index);
        let k = rest.index_of(index);
        let first = all.len() - rest.len();
        assert(all[first + k] == index);
    }
}

proof fn lemma_run_of(start: int, end: int, index: usize)
    requires
        start <= index < end,
    ensures
        run_of(start, end).contains(index),
    decreases end - start,
{
    let all = run_of(start, end);
    if index == end - 1 {
        assert(all.last() == index);
    } else {
        lemma_run_of(start, end - 1, index);
        let k = run_of(start, end - 1).index_of(index);
        assert(all[k] == index);
    }
}

proof fn lemma_run_outside(start: int, end: int, span: Option<ViewportRange>, index: usize)
    requires
        start <= index < end,
        !in_span(span, index as int),
    ensures
        run_outside(start, end, span).contains(index),
    decreases end - start,
{
    let all = run_outside(start, end, span);
    if index == end - 1 {
        assert(all.last() == index);
    } else {
        lemma_run_outside(start, end - 1, span, index);
        let k = run_outside(start, end - 1, span).index_of(index);
        assert(all[k] == index);
    }
}

/// How often blocks are measured before the visible range is taken as it is.
pub const MEASURE_ROUNDS: u32 = 8;

/// Rounds of measuring. Measured heights move blocks, so that others may be visible
/// afterwards.
#[derive(Clone, Copy, Debug, PartialEq, Eq, Structural)]
pub struct MeasureRounds {
    /// The blocks to measure, or that were measured last.
    pub range: ViewportRange,
    /// How many rounds are left; none when measuring is over.
    pub left: u32,
}

impl MeasureRounds {
    /// Before the first round.
    pub fn new(range: ViewportRange) -> (r: MeasureRounds)
        ensures
            r.range == range,
            r.left == MEASURE_ROUNDS,
    {
        MeasureRounds { range, left: MEASURE_ROUNDS }
    }

    /// After a round: `next` is visible now, and `changed` says whether a height
    /// changed. Measuring is over when the range stayed or every height did, or after
    /// the last round.
    pub fn advance(self, next: ViewportRange, changed: bool) -> (r: MeasureRounds)
        requires
            self.left > 0,
        ensures
            r.left < self.left,
            next == self.range || !changed ==> r == (MeasureRounds { range: self.range, left: 0 }),
            next != self.range && changed ==> r == (MeasureRounds {
                range: next,
                left: (self.left - 1) as u32,
            }),
    {
        if next == self.range || !changed {
            MeasureRounds { range: self.range, left: 0 }
        } else {
            MeasureRounds { range: next, left: self.left - 1 }
        }
    }
}

/// The blocks whose look differs from their source alone: those that a transient text
/// touches while there is one, else the one whose syntax the caret shows.
pub fn transient_blocks(
    composing: bool,
    composition: Option<ViewportRange>,
    reveal: Option<usize>,
) -> (r: Option<ViewportRange>)
    requires
        reveal matches Some(index) ==> index < usize::MAX,
    ensures
        r == (if composing {
            composition
        } else {
            match reveal {
                Some(index) => Some(ViewportRange { start: index, end: (index + 1) as usize }),
                None => None,
            }
        }),
{
    if composing {
        return composition;
    }
    match reveal {
        Some(index) => Some(ViewportRange { start: index, end: index + 1 }),
        None => None,
    }
}

/// What measuring asks for next.
#[derive(Clone, Copy, Debug, PartialEq, Eq, Structural)]
pub enum MeasureAction {
    /// Measure a block.
    Measure(usize),
    /// Find out which blocks are visible now.
    Locate,
    /// Nothing: these blocks are shown.
    Finish(ViewportRange),
}

/// The measuring of the visible blocks, one at a time.
#[derive(Debug)]
pub struct VisibleMeasure {
    pub rounds: MeasureRounds,
    pub transient: Option<ViewportRange>,
    /// The blocks of this round.
    pub order: Vec<usize>,
    /// How many of them are measured.
    pub done: usize,
    /// Whether one of them changed its height.
    pub changed: bool,
}

impl VisibleMeasure {
    /// Whether the blocks of the round are those to be measured.
    pub open spec fn wf(self) -> bool {
        &&& self.order@ == measure_sequence(self.transient, self.rounds.range)
        &&& self.done <= self.order@.len()
    }

    /// Whether the blocks so far are measured.
    pub open spec fn progress(self, layout: ViewportLayout) -> bool {
        forall|k: int|
            0 <= k < self.done ==> (#[trigger] self.order@[k]) < layout.entries@.len()
                && layout.entries@[self.order@[k] as int].measured
    }

    /// What is asked for next.
    pub open spec fn asks(self) -> MeasureAction {
        if self.rounds.left == 0 {
            MeasureAction::Finish(self.rounds.range)
        } else if self.done < self.order@.len() {
            MeasureAction::Measure(self.order@[self.done as int])
        } else {
            MeasureAction::Locate
        }
    }

    /// Before the first block. `visible` holds the blocks that are visible as far as
    /// heights are known.
    pub fn new(visible: ViewportRange, transient: Option<ViewportRange>) -> (r: VisibleMeasure)
        ensures
            r.wf(),
            r.rounds == (MeasureRounds { range: visible, left: MEASURE_ROUNDS }),
            r.transient == transient,
            r.done == 0,
            !r.changed,
            r.asks() is Measure || r.asks() is Locate,
    {
        VisibleMeasure {
            rounds: MeasureRounds::new(visible),
            transient,
            order: measure_order(transient, visible),
            done: 0,
            changed: false,
        }
    }

    /// What is asked for next. Cancelling is possible before each block, and leaves
    /// nothing half done that would be shown.
    pub fn action(&self, cancelled: bool) -> (r: Result<MeasureAction, EditorDocumentError>)
        requires
            self.wf(),
        ensures
            r == (if cancelled && self.asks() is Measure {
                Err::<MeasureAction, EditorDocumentError>(EditorDocumentError::Cancelled)
            } else {
                Ok::<MeasureAction, EditorDocumentError>(self.asks())
            }),
    {
        if self.rounds.left == 0 {
            return Ok(MeasureAction::Finish(self.rounds.range));
        }
        if self.done < self.order.len() {
            if cancelled {
                Err(EditorDocumentError::Cancelled)
            } else {
                Ok(MeasureAction::Measure(self.order[self.done]))
            }
        } else {
            Ok(MeasureAction::Locate)
        }
    }

    /// Takes the height of the block that was asked for.
    pub fn measured(&mut self, layout: &mut ViewportLayout, height: u32) -> (r: Result<
        (),
        ViewportError,
    >)
        requires
            old(self).wf(),
            old(self).asks() is Measure,
        ensures
            ({
                let index = old(self).asks()->Measure_0;
                let entries = old(layout).entries@;
                if !is_height(height) {
                    &&& r == Err::<(), ViewportError>(ViewportError::InvalidHeight(height))
                    &&& *final(self) == *old(self)
                    &&& *final(layout) == *old(layout)
                } else if index < entries.len() {
                    let entry = entries[index as int];
                    &&& r is Ok
                    &&& *final(self) == (VisibleMeasure {
                        done: (old(self).done + 1) as usize,
                        changed: old(self).changed || !same_height(entry.height, height)
                            || !entry.measured,
                        ..*old(self)
                    })
                    &&& final(layout).entries@ == entries.update(
                        index as int,
                        ViewportEntry { key: entry.key, height, measured: true },
                    )
                    &&& final(layout).estimate == old(layout).estimate
                    &&& final(layout).backend == old(layout).backend
                    &&& final(layout).revision == old(layout).revision
                    &&& final(layout).remapped == old(layout).remapped
                    &&& final(layout).invalidated == old(layout).invalidated
                } else {
                    &&& r == Err::<(), ViewportError>(
                        ViewportError::OutOfBounds { index, len: entries.len() as usize },
                    )
                    &&& *final(self) == *old(self)
                    &&& *final(layout) == *old(layout)
                }
            }),
            final(self).wf(),
            old(self).progress(*old(layout)) ==> final(self).progress(*final(layout)),
            r is Ok ==> final(self).rank().0 == old(self).rank().0,
            r is Ok ==> 0 <= final(self).rank().1 < old(self).rank().1,
    {
        assert(self.order@.len() == self.order.len());
        let index = self.order[self.done];
        match layout.set_block_height(index, height) {
            Ok(changed) => {
                self.done += 1;
                self.changed = self.changed || changed;
                Ok(())
            },
            Err(error) => Err(error),
        }
    }

    /// Takes the blocks that are visible after a round.
    pub fn located(&mut self, visible: ViewportRange)
        requires
            old(self).wf(),
            old(self).asks() is Locate,
        ensures
            final(self).wf(),
            final(self).transient == old(self).transient,
            final(self).done == 0,
            !final(self).changed,
            final(self).rounds.left < old(self).rounds.left,
            final(self).rounds == (if visible == old(self).rounds.range || !old(self).changed {
                MeasureRounds { range: old(self).rounds.range, left: 0 }
            } else {
                MeasureRounds { range: visible, left: (old(self).rounds.left - 1) as u32 }
            }),
    {
        self.rounds = self.rounds.advance(visible, self.changed);
        self.order = measure_order(self.transient, self.rounds.range);
        self.done = 0;
        self.changed = false;
    }

    /// How much is at most left to do: rounds, and blocks of this round.
    pub open spec fn rank(self) -> (int, int) {
        (self.rounds.left as int, self.order@.len() - self.done)
    }
}

/// Once a round is over, every block of the visible range is measured.
pub proof fn law_shown_blocks_are_measured(
    measure: VisibleMeasure,
    layout: ViewportLayout,
    index: usize,
)
    requires
        measure.wf(),
        measure.progress(layout),
        measure.asks() is Locate,
        measure.rounds.range.start <= index < measure.rounds.range.end,
    ensures
        index < layout.entries@.len(),
        layout.entries@[index as int].measured,
{
    law_all_blocks_are_measured(measure.transient, measure.rounds.range, index);
    let k = measure.order@.index_of(index);
    assert(measure.order@[k] == index);
}

/// What to do with a block that waits to be measured in the background.
#[derive(Clone, Copy, Debug, PartialEq, Eq, Structural)]
pub enum BackgroundStep {
    /// Give up, as asked.
    Cancel,
    /// Stop for now: the time is used up.
    Stop,
    /// Go on with the next: the block is gone.
    Skip,
    /// A blank line without caret: its height follows from the rules alone.
    Blank(usize),
    /// Lay it out.
    Shape(usize),
}

/// The milliseconds after which background measuring stops, once a block is measured.
pub const BACKGROUND_MILLIS: u64 = 8;

/// What to do with the next waiting block.
pub open spec fn step_for(
    cancelled: bool,
    measured: usize,
    elapsed_millis: u64,
    block: Option<usize>,
    blank: bool,
    focus: Option<usize>,
    composition: Option<ViewportRange>,
) -> BackgroundStep {
    if cancelled {
        BackgroundStep::Cancel
    } else if measured > 0 && elapsed_millis >= BACKGROUND_MILLIS {
        BackgroundStep::Stop
    } else {
        match block {
            None => BackgroundStep::Skip,
            Some(index) => if blank && focus != Some(index) && !in_span(composition, index as int) {
                BackgroundStep::Blank(index)
            } else {
                BackgroundStep::Shape(index)
            },
        }
    }
}

/// What to do with the next waiting block.
pub fn background_step(
    cancelled: bool,
    measured: usize,
    elapsed_millis: u64,
    block: Option<usize>,
    blank: bool,
    focus: Option<usize>,
    composition: Option<ViewportRange>,
) -> (r: BackgroundStep)
    ensures
        r == step_for(cancelled, measured, elapsed_millis, block, blank, focus, composition),
{
    if cancelled {
        return BackgroundStep::Cancel;
    }
    if measured > 0 && elapsed_millis >= BACKGROUND_MILLIS {
        return BackgroundStep::Stop;
    }
    let index = match block {
        Some(index) => index,
        None => return BackgroundStep::Skip,
    };
    let composed = match composition {
        Some(span) => span.start <= index && index < span.end,
        None => false,
    };
    if blank && focus != Some(index) && !composed {
        BackgroundStep::Blank(index)
    } else {
        BackgroundStep::Shape(index)
    }
}

/// Whether a block holds an offset, its end not included.
pub open spec fn holds_offset(block: BlockKey, offset: ByteOffset) -> bool {
    block.range.start.value <= offset.value < block.range.end.value
}

/// Whether no block behind `index` holds the offset.
pub open spec fn held_no_later(blocks: Seq<BlockKey>, index: int, offset: ByteOffset) -> bool {
    forall|j: int| index < j < blocks.len() ==> !holds_offset(#[trigger] blocks[j], offset)
}

/// Whether no block behind `index` ends at the offset.
pub open spec fn ends_no_later(blocks: Seq<BlockKey>, index: int, offset: ByteOffset) -> bool {
    forall|j: int| index < j < blocks.len() ==> (#[trigger] blocks[j]).range.end != offset
}

/// The block at an offset. The end of a block belongs to it unless a later block begins
/// there.
pub fn block_index_for_source(blocks: &[BlockKey], offset: ByteOffset) -> (r: Option<usize>)
    ensures
        block_found(blocks@, offset, r),
{
    let mut i: usize = blocks.len();
    let mut ending: Option<usize> = None;
    while i > 0
        invariant
            i <= blocks@.len(),
            held_no_later(blocks@, i - 1, offset),
            match ending {
                Some(index) => i <= index < blocks@.len() && blocks@[index as int].range.end
                    == offset && ends_no_later(blocks@, index as int, offset),
                None => ends_no_later(blocks@, i - 1, offset),
            },
        decreases i,
    {
        i -= 1;
        let range = blocks[i].range;
        if range.start.value <= offset.value && offset.value < range.end.value {
            return Some(i);
        }
        if ending.is_none() && range.end == offset {
            ending = Some(i);
        }
    }
    ending
}

/// How many blocks a run of background measuring takes up.
pub const BACKGROUND_LIMIT: usize = 128;

/// A run of background measuring: the blocks that wait, by where they begin.
#[derive(Debug)]
pub struct BackgroundRun {
    pub waiting: Vec<ByteOffset>,
    /// How many of them are done with.
    pub next: usize,
    /// How many of them were measured.
    pub measured: usize,
}

impl BackgroundRun {
    /// Whether the counts fit the list.
    pub open spec fn wf(self) -> bool {
        self.measured <= self.next <= self.waiting@.len()
    }

    /// A run over the first blocks that are not measured.
    pub fn new(layout: &ViewportLayout) -> (r: BackgroundRun)
        ensures
            r.wf(),
            r.waiting@ == waiting(layout.entries@, BACKGROUND_LIMIT as nat),
            r.next == 0,
            r.measured == 0,
    {
        BackgroundRun {
            waiting: layout.unmeasured_sources(BACKGROUND_LIMIT),
            next: 0,
            measured: 0,
        }
    }

    /// What to do with the next waiting block, or `None` where none is left. `blocks` are
    /// the blocks as they are now; a block that is gone is passed over.
    pub fn step(
        &mut self,
        cancelled: bool,
        elapsed_millis: u64,
        blocks: &[BlockKey],
        focus: Option<usize>,
        composition: Option<ViewportRange>,
    ) -> (r: Option<BackgroundStep>)
        requires
            old(self).wf(),
        ensures
            final(self).wf(),
            final(self).waiting == old(self).waiting,
            final(self).measured == old(self).measured,
            match r {
                None => old(self).next == old(self).waiting@.len() && final(self).next
                    == old(self).next,
                Some(step) => {
                    &&& old(self).next < old(self).waiting@.len()
                    &&& exists|block: Option<usize>| #[trigger]
                        block_found(blocks@, old(self).waiting@[old(self).next as int], block)
                            && step == step_for(
                            cancelled,
                            old(self).measured,
                            elapsed_millis,
                            block,
                            block is Some && blocks@[block->Some_0 as int].kind
                                == BlockKind::BlankLine,
                            focus,
                            composition,
                        )
                    &&& final(self).next == (if step is Skip {
                        (old(self).next + 1) as usize
                    } else {
                        old(self).next
                    })
                },
            },
    {
        if self.next >= self.waiting.len() {
            return None;
        }
        assert(self.waiting@.len() == self.waiting.len());
        let found = block_index_for_source(blocks, self.waiting[self.next]);
        let blank = match found {
            Some(index) => blocks[index].kind == BlockKind::BlankLine,
            None => false,
        };
        assert(block_found(blocks@, self.waiting@[self.next as int], found));
        let step = background_step(
            cancelled,
            self.measured,
            elapsed_millis,
            found,
            blank,
            focus,
            composition,
        );
        if let BackgroundStep::Skip = step {
            self.next += 1;
        }
        Some(step)
    }

    /// Takes the height of the block that was to be measured.
    pub fn measured(&mut self, layout: &mut ViewportLayout, index: usize, height: u32) -> (r: Result<
        bool,
        ViewportError,
    >)
        requires
            old(self).wf(),
            old(self).next < old(self).waiting@.len(),
        ensures
            final(self).wf(),
            r == (if !is_height(height) {
                Err::<bool, ViewportError>(ViewportError::InvalidHeight(height))
            } else if index < old(layout).entries@.len() {
                Ok::<bool, ViewportError>(
                    !same_height(old(layout).entries@[index as int].height, height) || !old(
                        layout,
                    ).entries@[index as int].measured,
                )
            } else {
                Err::<bool, ViewportError>(
                    ViewportError::OutOfBounds { index, len: old(layout).entries@.len() as usize },
                )
            }),
            *final(self) == (if r is Ok {
                BackgroundRun {
                    next: (old(self).next + 1) as usize,
                    measured: (old(self).measured + 1) as usize,
                    ..*old(self)
                }
            } else {
                *old(self)
            }),
            final(layout).entries@ == (if r is Ok {
                old(layout).entries@.update(
                    index as int,
                    ViewportEntry {
                        key: old(layout).entries@[index as int].key,
                        height,
                        measured: true,
                    },
                )
            } else {
                old(layout).entries@
            }),
            final(layout).estimate == old(layout).estimate,
            final(layout).backend == old(layout).backend,
            final(layout).revision == old(layout).revision,
            final(layout).remapped == old(layout).remapped,
            final(layout).invalidated == old(layout).invalidated,
    {
        assert(self.waiting@.len() == self.waiting.len());
        match layout.set_block_height(index, height) {
            Ok(changed) => {
                self.next += 1;
                self.measured += 1;
                Ok(changed)
            },
            Err(error) => Err(error),
        }
    }
}

/// Whether `block` is the block at an offset.
pub open spec fn block_found(
    blocks: Seq<BlockKey>,
    offset: ByteOffset,
    block: Option<usize>,
) -> bool {
    match block {
        Some(index) => index < blocks.len() && (if holds_offset(blocks[index as int], offset) {
            held_no_later(blocks, index as int, offset)
        } else {
            blocks[index as int].range.end == offset && held_no_later(blocks, -1, offset)
                && ends_no_later(blocks, index as int, offset)
        }),
        None => held_no_later(blocks, -1, offset) && ends_no_later(blocks, -1, offset),
    }
}

/// Whether a dragged divider belongs to block `index` at `revision`.
pub fn validate_table_resize_commit(
    index: usize,
    revision: Revision,
    commit_block: usize,
    commit_revision: Revision,
) -> (r: Result<(), EditorDocumentError>)
    ensures
        r == (if commit_block != index {
            Err::<(), EditorDocumentError>(EditorDocumentError::TableResizeBlock)
        } else if commit_revision != revision {
            Err::<(), EditorDocumentError>(EditorDocumentError::TableResizeRevision)
        } else {
            Ok::<(), EditorDocumentError>(())
        }),
{
    if commit_block != index {
        Err(EditorDocumentError::TableResizeBlock)
    } else if commit_revision != revision {
        Err(EditorDocumentError::TableResizeRevision)
    } else {
        Ok(())
    }
}

/// What measurements belong to. Configurations, selections, transient texts and
/// searches are given by number: equal ones have the same.
#[derive(Clone, Copy, Debug, PartialEq, Eq, Structural)]
pub struct LayoutStamp {
    pub document: u64,
    pub revision: Revision,
    pub config: u64,
    pub selections: u64,
    pub composition: u64,
    pub search: u64,
    pub search_generation: u64,
    pub resources: u64,
    /// The state of the measured heights.
    pub geometry: u64,
}

impl LayoutStamp {
    /// Whether measurements made under `other` hold here.
    pub open spec fn spec_accepts_measurements(self, other: LayoutStamp) -> bool {
        &&& self.document == other.document
        &&& self.revision == other.revision
        &&& self.config == other.config
        &&& self.selections == other.selections
        &&& self.composition == other.composition
    }

    /// Whether measurements made under `other` hold here: in the same document and
    /// revision, with the same configuration, selections and transient text.
    pub fn accepts_measurements(&self, other: &LayoutStamp) -> (r: bool)
        ensures
            r == self.spec_accepts_measurements(*other),
    {
        self.document == other.document && self.revision == other.revision && self.config
            == other.config && self.selections == other.selections && self.composition
            == other.composition
    }

    /// Whether a finished layout made under `other` holds here: its images have to be
    /// the same too.
    pub fn accepts_layout_snapshot(&self, other: &LayoutStamp) -> (r: bool)
        ensures
            r == (self.spec_accepts_measurements(*other) && self.resources == other.resources),
    {
        self.accepts_measurements(other) && self.resources == other.resources
    }

    /// Whether a finished layout made under `other` can answer questions now: no height
    /// has changed since.
    pub fn is_current(&self, other: &LayoutStamp) -> (r: bool)
        ensures
            r == (self.spec_accepts_measurements(*other) && self.resources == other.resources
                && self.geometry == other.geometry),
    {
        self.accepts_layout_snapshot(other) && self.geometry == other.geometry
    }

    /// Whether work in progress made under `other` can be kept for this state: besides
    /// all that, the search has to be the same. Heights may differ.
    pub fn can_reuse_layout_context(&self, other: &LayoutStamp) -> (r: bool)
        ensures
            r == (self.spec_accepts_measurements(*other) && self.search == other.search
                && self.search_generation == other.search_generation && self.resources
                == other.resources),
    {
        self.accepts_measurements(other) && self.search == other.search && self.search_generation
            == other.search_generation && self.resources == other.resources
    }
}

/// The search of a document. The generation tells frames apart that differ in nothing
/// but the query.
#[derive(Debug)]
pub struct DocumentSearch {
    pub state: Option<SearchState>,
    pub generation: u64,
}

impl DocumentSearch {
    /// No search.
    pub fn new() -> (r: DocumentSearch)
        ensures
            r.state is None,
            r.generation == 0,
    {
        DocumentSearch { state: None, generation: 0 }
    }

    /// Searches for `query`. An empty query leaves a search without matches.
    pub fn set_search_query(&mut self, snapshot: &TextBuffer, query: String)
        ensures
            final(self).state matches Some(state) && state.query == query && state.revision
                == snapshot.revision && state.of(snapshot.text@) && state.wf(),
            final(self).generation == (if old(self).generation == u64::MAX {
                0
            } else {
                (old(self).generation + 1) as u64
            }),
    {
        self.state = Some(SearchState::new(snapshot, query));
        self.generation = self.generation.wrapping_add(1);
    }

    /// Ends the search.
    pub fn clear_search(&mut self)
        ensures
            final(self).state is None,
            final(self).generation == (if old(self).state is None {
                old(self).generation
            } else if old(self).generation == u64::MAX {
                0
            } else {
                (old(self).generation + 1) as u64
            }),
    {
        if self.state.is_none() {
            return ;
        }
        self.state = None;
        self.generation = self.generation.wrapping_add(1);
    }

    /// The search.
    pub fn search(&self) -> (r: Option<&SearchState>)
        ensures
            match self.state {
                Some(state) => r == Some(&state),
                None => r is None,
            },
    {
        self.state.as_ref()
    }
}

/// All blocks before the first one with text are blank lines, and it is none itself.
pub proof fn law_blocks_before_the_first_text_are_blank(blocks: Seq<BoxBlock>, k: int)
    requires
        0 <= k < blocks.len(),
    ensures
        0 <= first_text_block(blocks, 0) <= blocks.len(),
        k < first_text_block(blocks, 0) ==> blocks[k].kind == BlockKind::BlankLine,
        k == first_text_block(blocks, 0) ==> blocks[k].kind != BlockKind::BlankLine,
{
    lemma_first_text(blocks, 0);
}

proof fn lemma_first_text(blocks: Seq<BoxBlock>, from: int)
    requires
        0 <= from <= blocks.len(),
    ensures
        ({
            let at = first_text_block(blocks, from);
            &&& from <= at <= blocks.len()
            &&& forall|k: int| from <= k < at ==> (#[trigger] blocks[k]).kind == BlockKind::BlankLine
            &&& at < blocks.len() ==> blocks[at].kind != BlockKind::BlankLine
        }),
    decreases blocks.len() - from,
{
    if from < blocks.len() && blocks[from].kind == BlockKind::BlankLine {
        lemma_first_text(blocks, from + 1);
    }
}

/// The gap below a block is measured to the next block that takes room: a blank line
/// between them does not count unless the caret is in it or it stands for an empty
/// paragraph. `k` is any block behind `from`.
pub proof fn law_blank_lines_are_passed_over(
    blocks: Seq<BoxBlock>,
    active: Option<usize>,
    from: int,
    k: int,
)
    requires
        0 <= from <= k < blocks.len() <= usize::MAX,
    ensures
        ({
            let shown = blocks[k].kind != BlockKind::BlankLine || blocks[k].empty_paragraph
                || active == Some(k as usize);
            match next_with_room(blocks, active, from) {
                Some(next) => from <= next < blocks.len() && (k < next ==> !shown) && (k == next
                    ==> shown),
                None => !shown,
            }
        }),
    decreases blocks.len() - from,
{
    lemma_next_with_room(blocks, active, from);
    let shown = blocks[k].kind != BlockKind::BlankLine || blocks[k].empty_paragraph || active
        == Some(k as usize);
    assert(takes_room(blocks, active, k) == shown);
}

proof fn lemma_next_with_room(blocks: Seq<BoxBlock>, active: Option<usize>, from: int)
    requires
        0 <= from <= blocks.len() <= usize::MAX,
    ensures
        match next_with_room(blocks, active, from) {
            Some(next) => from <= next < blocks.len() && takes_room(blocks, active, next as int)
                && forall|k: int| from <= k < next ==> !#[trigger] takes_room(blocks, active, k),
            None => forall|k: int|
                from <= k < blocks.len() ==> !#[trigger] takes_room(blocks, active, k),
        },
    decreases blocks.len() - from,
{
    if from < blocks.len() && !takes_room(blocks, active, from) {
        lemma_next_with_room(blocks, active, from + 1);
    }
}

/// A transient text that covers several blocks is shown once: the boxes of the others have
/// no height. Neither has a blank line that the caret is not in, unless it stands for an
/// empty paragraph; the line of the caret has that of a line.
pub proof fn law_boxes_without_height(
    blocks: Seq<BoxBlock>,
    index: int,
    span: Option<ViewportRange>,
    active: Option<usize>,
)
    requires
        0 <= index < blocks.len() <= usize::MAX,
    ensures
        ({
            let covered = span matches Some(s) && s.start < index < s.end;
            let blank = blocks[index].kind == BlockKind::BlankLine
                && !blocks[index].empty_paragraph;
            let height = box_height(blocks, index, span, active);
            &&& covered ==> height is Nothing
            &&& !covered && blank && active != Some(index as usize) ==> height is Nothing
            &&& !covered && blank && active == Some(index as usize) ==> height is ActiveLine
            &&& !covered && !blank ==> height is Full
        }),
{
}

/// No block is measured twice, and none that is neither transient nor visible. Those in a
/// transient state come first.
pub proof fn law_blocks_are_measured_once(
    transient: Option<ViewportRange>,
    visible: ViewportRange,
    i: int,
    j: int,
)
    requires
        0 <= i < j < measure_sequence(transient, visible).len(),
    ensures
        ({
            let order = measure_sequence(transient, visible);
            &&& order[i] != order[j]
            &&& in_span(transient, order[j] as int) ==> in_span(transient, order[i] as int)
            &&& in_span(transient, order[j] as int) || visible.start <= order[j] < visible.end
            &&& in_span(transient, order[i] as int) || visible.start <= order[i] < visible.end
        }),
{
    let first = match transient {
        Some(s) => run_of(s.start as int, s.end as int),
        None => Seq::empty(),
    };
    if let Some(s) = transient {
        lemma_run_in_order(s.start as int, s.end as int);
    }
    lemma_run_outside_in_order(visible.start as int, visible.end as int, transient);
    let rest = run_outside(visible.start as int, visible.end as int, transient);
    let order = measure_sequence(transient, visible);
    if j >= first.len() {
        assert(order[j] == rest[j - first.len()]);
        if i >= first.len() {
            assert(order[i] == rest[i - first.len()]);
        }
    }
}

proof fn lemma_run_in_order(start: int, end: int)
    requires
        0 <= start,
        end <= usize::MAX,
    ensures
        start <= end ==> run_of(start, end).len() == end - start,
        forall|k: int| 0 <= k < run_of(start, end).len() ==> run_of(start, end)[k] == start + k,
        start >= end ==> run_of(start, end).len() == 0,
    decreases end - start,
{
    if start < end {
        lemma_run_in_order(start, end - 1);
    }
}

proof fn lemma_run_outside_in_order(start: int, end: int, span: Option<ViewportRange>)
    requires
        0 <= start,
        end <= usize::MAX,
    ensures
        ({
            let run = run_outside(start, end, span);
            &&& forall|k: int|
                0 <= k < run.len() ==> start <= (#[trigger] run[k]) < end && !in_span(
                    span,
                    run[k] as int,
                )
            &&& forall|i: int, j: int|
                #![trigger run[i], run[j]]
                0 <= i < j < run.len() ==> run[i] < run[j]
        }),
    decreases end - start,
{
    if start < end {
        lemma_run_outside_in_order(start, end - 1, span);
        let before = run_outside(start, end - 1, span);
        let run = run_outside(start, end, span);
        assert forall|k: int| 0 <= k < run.len() implies start <= (#[trigger] run[k]) < end
            && !in_span(span, run[k] as int) by {
            if k < before.len() {
                assert(run[k] == before[k]);
            }
        }
        assert forall|i: int, j: int|
            #![trigger run[i], run[j]]
            0 <= i < j < run.len() implies run[i] < run[j] by {
            assert(run[i] == before[i]);
            if j < before.len() {
                assert(run[j] == before[j]);
            }
        }
    }
}

/// Background work does one block at least before its time is up, stops at once where it is
/// cancelled, and lays a block out that the caret or a transient text is in, blank or not.
pub proof fn law_background_work(
    measured: usize,
    elapsed_millis: u64,
    index: usize,
    blank: bool,
    focus: Option<usize>,
    composition: Option<ViewportRange>,
)
    ensures
        step_for(true, measured, elapsed_millis, Some(index), blank, focus, composition)
            == BackgroundStep::Cancel,
        step_for(false, 0, elapsed_millis, Some(index), blank, focus, composition)
            != BackgroundStep::Stop,
        focus == Some(index) ==> step_for(
            false,
            0,
            elapsed_millis,
            Some(index),
            blank,
            focus,
            composition,
        ) == BackgroundStep::Shape(index),
        composition matches Some(s) && s.start <= index < s.end ==> step_for(
            false,
            0,
            elapsed_millis,
            Some(index),
            blank,
            focus,
            composition,
        ) == BackgroundStep::Shape(index),
        !blank ==> step_for(
            false,
            0,
            elapsed_millis,
            Some(index),
            blank,
            focus,
            composition,
        ) == BackgroundStep::Shape(index),
{
}

} // verus!
