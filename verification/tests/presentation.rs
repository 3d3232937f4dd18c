//! Distances between blocks, the state that blocks are laid out in, and the containers
//! around them.
use yu_editor::block::{BlockKey, BlockKind};
use yu_editor::document::error::EditorDocumentError;
use yu_editor::document::layout_context::{
    background_step, block_at, block_box_height, block_content_origin,
    block_layout_for_visual_state, block_visual_for_composition, composition_block_index,
    hidden_bytes, measure_order, selection_reveal_block_index, selection_reveal_range,
    validate_table_resize_commit, BackgroundStep, BoxBlock, BoxHeight, CompositionPart,
    ContentOrigin, LayoutStamp, MeasureRounds, VisualRoute,
};
use yu_editor::document::layout_snapshot::{
    block, block_for_source, container_geometry, snapshot_matches, LayoutFacts, SnapshotPlace,
    VisibleBlock,
};
use yu_editor::hidden::HiddenRanges;
use yu_editor::offset::{ByteOffset, Revision, TextRange};
use yu_editor::presentation::{
    block_spacing, box_layout_config_with_quote, heading_index, is_code_block, quote_margin,
    structural_block_gap, BlockMargin, GapBlock, MarginTerm, PresentationKind, PresentationNode,
    PresentationTree, QuoteMargin,
};
use yu_editor::viewport::ViewportRange;

fn range(start: u64, end: u64) -> TextRange {
    TextRange::new(ByteOffset::new(start), ByteOffset::new(end)).expect("ordered")
}

fn span(start: usize, end: usize) -> ViewportRange {
    ViewportRange::new(start, end).expect("ordered")
}

/// A document with a paragraph, a quotation of two paragraphs, and a list whose item
/// holds a paragraph and a quotation.
fn tree() -> PresentationTree {
    let shape: [(PresentationKind, Option<usize>, &[usize], (u64, u64)); 11] = [
        (PresentationKind::Document, None, &[1, 2, 5], (0, 60)),
        (PresentationKind::Paragraph, Some(0), &[], (0, 10)),
        (PresentationKind::Quote, Some(0), &[3, 4], (10, 30)),
        (PresentationKind::Paragraph, Some(2), &[], (10, 20)),
        (PresentationKind::Paragraph, Some(2), &[], (20, 30)),
        (PresentationKind::List, Some(0), &[6], (30, 60)),
        (PresentationKind::ListItem, Some(5), &[7, 8], (30, 60)),
        (PresentationKind::Paragraph, Some(6), &[], (30, 40)),
        (PresentationKind::Quote, Some(6), &[9, 10], (40, 60)),
        (PresentationKind::Paragraph, Some(8), &[], (40, 50)),
        (PresentationKind::EmptyParagraph, Some(8), &[], (50, 60)),
    ];
    PresentationTree {
        nodes: shape
            .iter()
            .map(|(kind, parent, children, source)| PresentationNode {
                kind: *kind,
                source: range(source.0, source.1),
                content_end: ByteOffset::new(source.1),
                parent: *parent,
                children: children.to_vec(),
            })
            .collect(),
    }
}

const PARAGRAPH: GapBlock = GapBlock { kind: BlockKind::Paragraph, table: false };
const TABLE: GapBlock = GapBlock { kind: BlockKind::Other(1), table: true };

#[test]
fn quotations_lose_their_margin_at_the_edges_of_what_holds_them() {
    let tree = tree();
    assert!(tree.is_valid());
    assert!(tree.has_path(&[0, 2, 3]));
    assert!(!tree.has_path(&[0, 99]));
    assert_eq!(quote_margin(&tree, 2, false), QuoteMargin::Before);
    assert_eq!(quote_margin(&tree, 2, true), QuoteMargin::After);
    assert_eq!(quote_margin(&tree, 8, false), QuoteMargin::Body);
    assert_eq!(quote_margin(&tree, 8, true), QuoteMargin::Body);
    let mut nested = tree;
    nested.nodes[3].kind = PresentationKind::Quote;
    assert_eq!(quote_margin(&nested, 3, false), QuoteMargin::Zero);
    assert_eq!(quote_margin(&nested, 3, true), QuoteMargin::After);
    nested.nodes[4].kind = PresentationKind::Quote;
    assert_eq!(quote_margin(&nested, 4, true), QuoteMargin::Zero);
    nested.nodes[1].parent = Some(5);
    assert!(!nested.is_valid());
}

#[test]
fn margins_meet_below_the_container_that_holds_both_blocks() {
    let tree = tree();
    let gap = |upper: &[usize], lower: &[usize]| {
        structural_block_gap(false, &tree, PARAGRAPH, upper, Some(PARAGRAPH), lower)
    };
    let after = MarginTerm::BlockAfter(BlockKind::Paragraph);
    let before = MarginTerm::BlockBefore(BlockKind::Paragraph);
    assert_eq!(
        gap(&[0, 1], &[0, 2, 3]),
        [after, MarginTerm::Zero, MarginTerm::Quote(QuoteMargin::Before)]
    );
    assert_eq!(gap(&[0, 2, 3], &[0, 2, 4]), [after, before]);
    assert_eq!(
        gap(&[0, 2, 4], &[0, 5, 6, 7]),
        [
            MarginTerm::Zero,
            MarginTerm::Quote(QuoteMargin::After),
            MarginTerm::Zero,
            MarginTerm::ParagraphBefore
        ]
    );
    assert_eq!(
        gap(&[0, 5, 6, 7], &[0, 5, 6, 8, 9]),
        [MarginTerm::ListParagraph, MarginTerm::Zero, MarginTerm::Quote(QuoteMargin::Body)]
    );
    assert_eq!(
        structural_block_gap(false, &tree, PARAGRAPH, &[0, 5, 6, 8, 10], None, &[]),
        [
            MarginTerm::Zero,
            MarginTerm::ParagraphAfter,
            MarginTerm::Quote(QuoteMargin::Body)
        ]
    );
    assert_eq!(
        structural_block_gap(false, &tree, TABLE, &[0, 1], Some(PARAGRAPH), &[]),
        [MarginTerm::BlockAfter(BlockKind::Other(1)), before]
    );
    assert_eq!(
        structural_block_gap(false, &tree, TABLE, &[0, 1], None, &[]),
        [MarginTerm::Table]
    );
    assert_eq!(
        structural_block_gap(true, &tree, TABLE, &[0, 1], None, &[]),
        [MarginTerm::Zero]
    );
    let kind = BlockKind::BlankLine;
    let blank = GapBlock { kind, table: false };
    assert_eq!(
        structural_block_gap(false, &tree, blank, &[0, 5, 6, 8, 10], Some(blank), &[]),
        [after, MarginTerm::BlockBefore(kind)]
    );
}

#[test]
fn a_table_that_ends_an_item_has_the_margin_of_a_list_paragraph() {
    let mut tree = tree();
    tree.nodes[8].kind = PresentationKind::Other;
    assert_eq!(
        structural_block_gap(false, &tree, TABLE, &[0, 5, 6, 8], None, &[]),
        [MarginTerm::ListParagraph, MarginTerm::ParagraphAfter]
    );
}

#[test]
fn source_separators_have_no_margin_but_paragraphs_do() {
    assert_eq!(block_spacing(BlockKind::Paragraph), BlockMargin::Paragraph);
    for kind in [BlockKind::BlankLine, BlockKind::ReferenceDefinition, BlockKind::HtmlBlock] {
        assert_eq!(block_spacing(kind), BlockMargin::Zero, "{kind:?}");
    }
}

#[test]
fn headings_and_code_have_margins_of_their_own() {
    for (level, index) in [(0, 0), (1, 0), (3, 2), (6, 5), (9, 5)] {
        assert_eq!(
            block_spacing(BlockKind::Heading { level }),
            BlockMargin::Heading { index }
        );
    }
    assert_eq!(heading_index(0), None);
    assert_eq!(heading_index(1), Some(0));
    assert_eq!(heading_index(6), Some(5));
    assert_eq!(heading_index(7), None);
    let fenced = BlockKind::FencedCodeBlock { marker: '`', closed: true };
    for code in [fenced, BlockKind::IndentedCode] {
        assert!(is_code_block(code));
        assert_eq!(block_spacing(code), BlockMargin::Code);
        let inset = box_layout_config_with_quote(code, true);
        assert_eq!((inset.code, inset.quotes), (true, 1));
    }
    let quote = BlockKind::BlockQuote { depth: 1 };
    assert_eq!(box_layout_config_with_quote(quote, true).quotes, 1);
    assert_eq!(box_layout_config_with_quote(BlockKind::Paragraph, false).quotes, 0);
    assert!(!is_code_block(quote));
}

fn box_block(kind: BlockKind) -> BoxBlock {
    BoxBlock { kind, table: false, empty_paragraph: false }
}

#[test]
fn only_the_first_block_keeps_a_margin_above() {
    let tree = tree();
    let heading = box_block(BlockKind::Heading { level: 1 });
    let table = BoxBlock { table: true, ..box_block(BlockKind::Other(0)) };
    let blocks = [box_block(BlockKind::BlankLine), heading, heading];
    let origin = |blocks: &[BoxBlock], index: usize, path: &[usize]| {
        block_content_origin(false, &tree, blocks, index, path)
    };
    assert!(matches!(origin(&blocks, 1, &[0, 1]), ContentOrigin::Heading));
    assert!(matches!(origin(&blocks, 2, &[0, 1]), ContentOrigin::Inset));
    assert!(matches!(origin(&blocks, 9, &[0, 1]), ContentOrigin::Top));
    assert!(matches!(origin(&[table], 0, &[0, 1]), ContentOrigin::Table));
    assert!(matches!(origin(&[table], 0, &[]), ContentOrigin::Inset));
    assert!(matches!(origin(&[heading], 0, &[0, 5, 6, 7]), ContentOrigin::Inset));
    assert!(matches!(
        origin(&[box_block(BlockKind::Paragraph)], 0, &[0, 1]),
        ContentOrigin::Inset
    ));
    match origin(&[heading], 0, &[0, 2, 3]) {
        ContentOrigin::Quotes(margins) => assert_eq!(margins, [QuoteMargin::Before]),
        other => panic!("{other:?}"),
    }
    assert!(matches!(
        block_content_origin(true, &tree, &blocks, 1, &[0, 1]),
        ContentOrigin::Top
    ));
}

#[test]
fn blank_lines_take_room_only_for_a_caret() {
    let text = box_block(BlockKind::Paragraph);
    let blank = box_block(BlockKind::BlankLine);
    let empty = BoxBlock { empty_paragraph: true, ..blank };
    let blocks = [text, blank, blank, empty, text];
    let height = |index: usize, focus: Option<usize>, editing: bool| {
        block_box_height(&blocks, index, None, focus, editing)
    };
    assert_eq!(height(0, None, true), BoxHeight::Full { empty_line: false, next: Some(3) });
    assert_eq!(height(0, Some(2), true), BoxHeight::Full { empty_line: false, next: Some(2) });
    assert_eq!(height(0, Some(2), false), BoxHeight::Full { empty_line: false, next: Some(3) });
    assert_eq!(height(1, None, true), BoxHeight::Nothing);
    assert_eq!(height(1, Some(1), true), BoxHeight::ActiveLine);
    assert_eq!(height(3, None, true), BoxHeight::Full { empty_line: true, next: Some(4) });
    assert_eq!(height(4, None, true), BoxHeight::Full { empty_line: false, next: None });
    assert_eq!(height(5, None, true), BoxHeight::Content);
    let covered = block_box_height(&blocks, 3, Some(span(0, 4)), Some(0), true);
    assert_eq!(covered, BoxHeight::Nothing);
    let first = block_box_height(&blocks, 0, Some(span(0, 4)), Some(0), true);
    assert_eq!(first, BoxHeight::Full { empty_line: false, next: Some(4) });
}

#[test]
fn a_transient_text_is_shown_by_its_first_block() {
    let whole = range(3, 25);
    let part = |index: usize, block: TextRange| {
        block_visual_for_composition(Some(span(0, 3)), index, whole, block)
    };
    assert_eq!(
        part(0, range(0, 10)),
        Ok(CompositionPart { replacement: range(3, 10), shows_text: true })
    );
    assert_eq!(
        part(1, range(10, 20)),
        Ok(CompositionPart { replacement: range(10, 20), shows_text: false })
    );
    assert_eq!(
        part(2, range(20, 30)),
        Ok(CompositionPart { replacement: range(20, 25), shows_text: false })
    );
    assert_eq!(part(3, range(30, 40)), Err(EditorDocumentError::CompositionNotActive));
    assert_eq!(part(2, range(26, 40)), Err(EditorDocumentError::CompositionNotActive));
    assert_eq!(
        block_visual_for_composition(Some(span(1, 2)), 1, whole, range(0, 40)),
        Ok(CompositionPart { replacement: whole, shows_text: true })
    );
    assert_eq!(
        block_visual_for_composition(None, 1, whole, range(0, 40)),
        Err(EditorDocumentError::CompositionNotActive)
    );
    assert_eq!(composition_block_index(Some(span(4, 5))), Some(4));
    assert_eq!(composition_block_index(Some(span(4, 6))), None);
    assert_eq!(composition_block_index(None), None);
}

#[test]
fn the_caret_shows_syntax_only_where_less_is_hidden() {
    let text = "**bold**";
    let hidden = HiddenRanges::new(text, vec![range(0, 2), range(6, 8)]).expect("hidden");
    let none = HiddenRanges::new(text, Vec::new()).expect("hidden");
    assert_eq!(hidden_bytes(&hidden), 4);
    assert_eq!(hidden_bytes(&none), 0);
    assert_eq!(selection_reveal_block_index(false, false, Some(3), &hidden, &none), Some(3));
    assert_eq!(selection_reveal_block_index(false, false, Some(3), &hidden, &hidden), None);
    assert_eq!(selection_reveal_block_index(true, false, Some(3), &hidden, &none), None);
    assert_eq!(selection_reveal_block_index(false, true, Some(3), &hidden, &none), None);
    let focus = ByteOffset::new(9);
    assert_eq!(selection_reveal_range(range(2, 9), focus, Some(range(4, 20))), range(4, 9));
    assert_eq!(selection_reveal_range(range(2, 9), focus, None), range(9, 9));
    assert_eq!(selection_reveal_range(range(9, 9), focus, Some(range(0, 4))), range(9, 9));
    assert_eq!(selection_reveal_range(range(5, 9), focus, Some(range(0, 4))), range(9, 9));
    assert_eq!(
        block_layout_for_visual_state(2, Some(span(1, 3)), Some(2)),
        VisualRoute::Composition
    );
    assert_eq!(block_layout_for_visual_state(2, None, Some(2)), VisualRoute::Reveal);
    assert_eq!(block_layout_for_visual_state(2, None, Some(1)), VisualRoute::Canonical);
}

#[test]
fn transient_blocks_are_measured_first_and_each_block_once() {
    assert_eq!(measure_order(None, span(2, 5)), [2, 3, 4]);
    assert_eq!(measure_order(Some(span(0, 3)), span(2, 5)), [0, 1, 2, 3, 4]);
    assert_eq!(measure_order(Some(span(3, 4)), span(2, 5)), [3, 2, 4]);
    assert!(measure_order(None, span(4, 4)).is_empty());
    let rounds = MeasureRounds::new(span(0, 2));
    assert_eq!(rounds.left, 8);
    assert_eq!(rounds.advance(span(0, 2), true).left, 0);
    let stable = rounds.advance(span(0, 3), false);
    assert_eq!((stable.range, stable.left), (span(0, 2), 0));
    let next = rounds.advance(span(0, 3), true);
    assert_eq!((next.range, next.left), (span(0, 3), 7));
}

#[test]
fn background_measuring_stops_in_time_and_skips_what_is_gone() {
    let step = |cancelled, measured, elapsed, index| {
        background_step(cancelled, measured, elapsed, index, true, Some(4), Some(span(6, 8)))
    };
    assert_eq!(step(true, 0, 0, Some(1)), BackgroundStep::Cancel);
    assert_eq!(step(false, 1, 8, Some(1)), BackgroundStep::Stop);
    assert_eq!(step(false, 0, 8, Some(1)), BackgroundStep::Blank(1));
    assert_eq!(step(false, 1, 7, None), BackgroundStep::Skip);
    assert_eq!(step(false, 0, 0, Some(4)), BackgroundStep::Shape(4));
    assert_eq!(step(false, 0, 0, Some(7)), BackgroundStep::Shape(7));
    assert_eq!(
        background_step(false, 0, 0, Some(1), false, None, None),
        BackgroundStep::Shape(1)
    );
}

#[test]
fn results_of_another_state_are_refused() {
    let now = LayoutStamp {
        document: 1,
        revision: Revision::new(2),
        config: 3,
        selections: 4,
        composition: 5,
        search: 6,
        search_generation: 7,
        resources: 8,
        geometry: 9,
    };
    assert!(now.is_current(&now) && now.can_reuse_layout_context(&now));
    let scrolled = LayoutStamp { geometry: 0, ..now };
    assert!(now.accepts_layout_snapshot(&scrolled) && !now.is_current(&scrolled));
    let decoded = LayoutStamp { resources: 0, ..now };
    assert!(now.accepts_measurements(&decoded) && !now.accepts_layout_snapshot(&decoded));
    let searched = LayoutStamp { search_generation: 0, ..now };
    assert!(now.accepts_layout_snapshot(&searched) && !now.can_reuse_layout_context(&searched));
    for other in [
        LayoutStamp { document: 0, ..now },
        LayoutStamp { revision: Revision::new(0), ..now },
        LayoutStamp { config: 0, ..now },
        LayoutStamp { selections: 0, ..now },
        LayoutStamp { composition: 0, ..now },
    ] {
        assert!(!now.accepts_measurements(&other));
    }
    let revision = Revision::new(2);
    assert_eq!(validate_table_resize_commit(1, revision, 1, revision), Ok(()));
    assert_eq!(
        validate_table_resize_commit(1, revision, 2, revision),
        Err(EditorDocumentError::TableResizeBlock)
    );
    assert_eq!(
        validate_table_resize_commit(1, revision, 1, Revision::new(3)),
        Err(EditorDocumentError::TableResizeRevision)
    );
    let key = BlockKey { range: range(0, 1), kind: BlockKind::Paragraph };
    assert_eq!(block_at(&[key], 0), Ok(key));
    assert_eq!(
        block_at(&[key], 1),
        Err(EditorDocumentError::BlockOutOfBounds { index: 1, blocks: 1 })
    );
}

#[test]
fn blocks_are_found_by_number_and_by_source() {
    let places = [(2, 0, 5), (4, 5, 9), (5, 9, 9), (6, 12, 20)].map(|(index, start, end)| {
        SnapshotPlace { index, source: range(start, end) }
    });
    assert_eq!(block(&places, 4), Some(1));
    assert_eq!(block(&places, 3), None);
    assert_eq!(block(&places, 9), None);
    let at = |offset: u64| block_for_source(&places, ByteOffset::new(offset));
    assert_eq!(at(0), Some(0));
    assert_eq!(at(5), Some(1));
    assert_eq!(at(9), Some(2));
    assert_eq!(at(10), None);
    assert_eq!(at(20), Some(3));
    assert_eq!(at(21), None);
    assert_eq!(block_for_source(&[], ByteOffset::new(0)), None);
    let revision = Revision::new(1);
    let facts = |config| LayoutFacts { revision, source: range(0, 5), config };
    let first = &places[..1];
    assert!(snapshot_matches(revision, revision, first, &[3], &[facts(3)]));
    assert!(!snapshot_matches(revision, revision, first, &[3], &[facts(4)]));
    assert!(!snapshot_matches(revision, Revision::new(0), first, &[3], &[facts(3)]));
    assert!(!snapshot_matches(revision, revision, first, &[3], &[]));
}

#[test]
fn containers_span_the_visible_blocks_in_them() {
    let tree = tree();
    let visible = |start: u64, end: u64, has_height: bool, path: &[usize]| VisibleBlock {
        source: range(start, end),
        has_height,
        path: path.to_vec(),
    };
    let blocks = [
        visible(20, 30, true, &[0, 2, 4]),
        visible(30, 40, true, &[0, 5, 6, 7]),
        visible(40, 50, true, &[0, 5, 6, 8, 9]),
        visible(50, 55, false, &[0, 5, 6, 8, 10]),
    ];
    let plans = container_geometry(&tree, &blocks);
    let nodes: Vec<usize> = plans.iter().map(|plan| plan.node).collect();
    assert_eq!(nodes, [2, 5, 6, 8]);
    let quote = plans[0];
    assert_eq!((quote.first, quote.last, quote.continues), (0, 0, false));
    assert!(quote.margin && quote.clipped_start && !quote.clipped_end);
    assert_eq!((quote.indent.lists, quote.indent.quotes, quote.indent.margins), (0, 0, 0));
    let item = plans[2];
    assert_eq!((item.first, item.last, item.continues), (1, 2, true));
    assert!(!item.margin && !item.clipped_start && item.clipped_end);
    let inner = plans[3];
    assert_eq!((inner.first, inner.last), (2, 2));
    assert_eq!((inner.indent.lists, inner.indent.quotes), (1, 0));
    assert!(!inner.margin);
    let mut nested = tree;
    nested.nodes[9].kind = PresentationKind::Quote;
    let plans = container_geometry(&nested, &blocks);
    let deepest = plans.last().expect("container");
    assert_eq!(deepest.node, 9);
    assert_eq!(
        (deepest.indent.lists, deepest.indent.quotes, deepest.indent.margins),
        (1, 1, 1)
    );
    assert!(container_geometry(&nested, &[]).is_empty());
}
