//! Boxes in a block, and laid out tables.
use yu_editor::geometry::{shift_range, shift_ranges, LayoutError};
use yu_editor::hidden::HiddenRanges;
use yu_editor::marks::StyleId;
use yu_editor::offset::{ByteOffset, Revision, TextRange};
use yu_editor::selection::Bias;
use yu_editor::table::{
    cell_for_visual, cell_pieces, cell_visual, check_shape, row_sources, source_for_visual_hit,
    Pointer, StyleRun, TableCellPlace, TableResizeGesture, TableResizeGestureError,
    TableResizeTarget, TableSources,
};
use yu_editor::visual::{VisualOffset, VisualRange, VisualText, VisualTextError};
use yu_editor::widget::{
    build_table_widget_placements, build_widget_placements, image_of, size_of, BlockWidget,
    CheckboxSpan, ImageSize, ImageSpan, TaskState, WidgetBox, WidgetCell,
};

fn range(start: u64, end: u64) -> TextRange {
    TextRange::new(ByteOffset::new(start), ByteOffset::new(end)).expect("ordered")
}

fn visual(start: u64, end: u64) -> VisualRange {
    VisualRange { start: VisualOffset::new(start), end: VisualOffset::new(end) }
}

fn image() -> ImageSpan {
    ImageSpan { source: range(4, 9), label: range(6, 7) }
}

fn widgets() -> [BlockWidget; 2] {
    [
        BlockWidget::Checkbox(CheckboxSpan { source: range(0, 3), state: TaskState::Done }),
        BlockWidget::Image(image()),
    ]
}

fn boxed(widget: u32, at: u64, line: usize) -> WidgetBox {
    WidgetBox { widget, visual: VisualOffset::new(at), line }
}

#[test]
fn every_box_is_joined_to_its_widget() {
    let placements =
        build_widget_placements(&widgets(), &[boxed(0, 1, 0), boxed(1, 2, 3)]).expect("placed");
    assert_eq!(placements.checkboxes.len(), 1);
    assert_eq!(placements.checkboxes[0].source(), range(0, 3));
    assert_eq!(placements.checkboxes[0].state(), TaskState::Done);
    assert_eq!(placements.checkboxes[0].placed().place, 0);
    let image = placements.images[0];
    assert_eq!((image.source(), image.label()), (range(4, 9), range(6, 7)));
    assert_eq!((image.line(), image.visual(), image.placed().place), (3, visual(2, 2), 1));
    assert_eq!(
        build_widget_placements(&widgets(), &[boxed(1, 0, 0), boxed(7, 0, 0)]).expect_err("unknown"),
        LayoutError::UnknownWidget(7)
    );
    let moved = image.shifted(-4).expect("moved");
    assert_eq!((moved.source(), moved.label()), (range(0, 5), range(2, 3)));
    assert_eq!(image.shifted(-5).expect_err("before the text"), LayoutError::OffsetOverflow);
    let check = placements.checkboxes[0].shifted(2).expect("moved");
    assert_eq!(check.source(), range(2, 5));
    assert_eq!(check.line(), 0);
}

#[test]
fn boxes_of_cells_count_from_their_cell() {
    let cells = [
        WidgetCell { row: 0, start: VisualOffset::new(0) },
        WidgetCell { row: 2, start: VisualOffset::new(10) },
    ];
    let layouts = [vec![boxed(1, 3, 0)], vec![boxed(0, 1, 1), boxed(1, u64::MAX, 0)]];
    let placements = build_table_widget_placements(&widgets(), &cells, &layouts).expect("placed");
    assert_eq!(placements.images[0].visual(), visual(3, 3));
    assert_eq!(placements.images[0].line(), 0);
    assert_eq!(placements.checkboxes[0].placed().visual(), visual(11, 11));
    assert_eq!(placements.checkboxes[0].line(), 2);
    assert_eq!(placements.images[1].visual(), visual(u64::MAX, u64::MAX));
    assert_eq!(placements.images[1].placed().place, 2);
    assert_eq!(
        build_table_widget_placements(&widgets(), &cells, &layouts[..1]).expect_err("cell"),
        LayoutError::TableCell
    );
    assert_eq!(
        build_table_widget_placements(&widgets()[..1], &cells, &layouts).expect_err("widget"),
        LayoutError::UnknownWidget(1)
    );
}

#[test]
fn sizes_are_found_by_place() {
    assert_eq!(image_of(&widgets(), 1), Some(image()));
    assert_eq!(image_of(&widgets(), 0), None);
    assert_eq!(image_of(&widgets(), 2), None);
    let size = |start: u64, width: u32| ImageSize {
        source: range(start, start + 5),
        width,
        height: 1,
    };
    assert_eq!(size_of(&[size(0, 1), size(4, 2), size(4, 3)], image()), Some(size(4, 2)));
    assert_eq!(size_of(&[size(0, 1)], image()), None);
}

#[test]
fn moving_a_range_there_and_back_changes_nothing() {
    let there = shift_range(range(3, 9), 40).expect("moved");
    assert_eq!(there, range(43, 49));
    assert_eq!(shift_range(there, -40), Ok(range(3, 9)));
    assert_eq!(shift_range(range(3, 9), -4), Err(LayoutError::OffsetOverflow));
    assert_eq!(
        shift_range(range(0, u64::MAX), 1),
        Err(LayoutError::OffsetOverflow)
    );
    assert_eq!(shift_ranges(&vec![range(1, 2), range(5, 6)], 1), Ok(vec![range(2, 3), range(6, 7)]));
    assert!(shift_ranges(&vec![range(1, 2), range(0, 6)], -1).is_err());
    let table = TableSources {
        table: range(10, 40),
        delimiter: Some(range(20, 25)),
        cells: vec![range(12, 13)],
        rows: vec![range(10, 19), range(26, 40)],
    };
    let moved = table.shifted(-10).expect("moved");
    assert_eq!(moved.table, range(0, 30));
    assert_eq!(moved.delimiter, Some(range(10, 15)));
    assert_eq!(moved.cells, [range(2, 3)]);
    assert_eq!(moved.rows, [range(0, 9), range(16, 30)]);
    assert_eq!(table.shifted(-11).expect_err("before the text"), LayoutError::OffsetOverflow);
}

#[test]
fn a_table_needs_a_cell_for_every_column() {
    assert_eq!(check_shape(2, 2, &[2, 2]), Ok(()));
    assert_eq!(check_shape(0, 0, &[]), Err(LayoutError::TableColumns));
    assert_eq!(check_shape(2, 3, &[2]), Err(LayoutError::TableColumns));
    assert_eq!(check_shape(2, 2, &[2, 1]), Err(LayoutError::TableRow));
    let lines = [range(0, 1), range(1, 2), range(2, 3), range(3, 4)];
    assert_eq!(row_sources(&lines, 3), Ok(vec![range(0, 1), range(2, 3), range(3, 4)]));
    assert_eq!(row_sources(&lines, 4), Err(LayoutError::OffsetOverflow));
    assert_eq!(row_sources(&[], 1), Err(LayoutError::OffsetOverflow));
    assert_eq!(row_sources(&[], 0), Ok(Vec::new()));
}

/// A table of one line, `| a |  | b |`, of which the bars are hidden.
fn line() -> (VisualText, Vec<TextRange>, Vec<TableCellPlace>) {
    let source = "| a |  | b |";
    let hidden = vec![range(0, 2), range(3, 9), range(10, 12)];
    let text = VisualText::new(
        source,
        Revision::new(0),
        range(0, 12),
        HiddenRanges::new(source, hidden.clone()).expect("hidden"),
    )
    .expect("text");
    let cells = [(range(2, 3), visual(0, 1)), (range(6, 6), visual(1, 1)), (range(9, 10), visual(1, 2))]
        .into_iter()
        .enumerate()
        .map(|(column, (source, visual))| TableCellPlace { row: 0, column, source, visual })
        .collect();
    (text, hidden, cells)
}

#[test]
fn the_bias_picks_among_cells_at_one_offset() {
    let (text, hidden, cells) = line();
    assert_eq!(text.text(), "ab");
    let at = VisualOffset::new(1);
    assert_eq!(cell_for_visual(&cells, at, Bias::Before), Some(0));
    assert_eq!(cell_for_visual(&cells, at, Bias::After), Some(2));
    assert_eq!(cell_for_visual(&cells, VisualOffset::new(3), Bias::After), None);
    let hit = |offset: u64| source_for_visual_hit(&cells, &text, &hidden, VisualOffset::new(offset));
    assert_eq!(hit(0), Some(ByteOffset::new(2)));
    assert_eq!(hit(1), Some(ByteOffset::new(6)));
    assert_eq!(hit(2), Some(ByteOffset::new(10)));
    assert_eq!(source_for_visual_hit(&cells, &text, &[], at), None);
    assert_eq!(source_for_visual_hit(&[], &text, &hidden, at), None);
    assert_eq!(source_for_visual_hit(&cells, &text, &[range(2, 3)], VisualOffset::new(0)), None);
}

#[test]
fn a_cell_is_read_style_by_style() {
    let (text, _, _) = line();
    assert_eq!(cell_visual(&text, range(2, 3)), Ok(visual(0, 1)));
    assert_eq!(cell_visual(&text, range(6, 6)), Ok(visual(1, 1)));
    assert_eq!(
        cell_visual(&text, range(6, 99)),
        Err(VisualTextError::SourceOutsideRange {
            offset: ByteOffset::new(99),
            range: range(0, 12)
        })
    );
    let run = |start: u64, end: u64, style: u32| StyleRun {
        visual: visual(start, end),
        style: StyleId { value: style },
    };
    let runs = [run(0, 3, 1), run(3, 7, 2), run(7, 9, 3)];
    let pieces = cell_pieces("羽bcd羽", &runs, visual(0, 5)).expect("pieces");
    let texts: Vec<(&str, u32)> =
        pieces.iter().map(|piece| (piece.text.as_str(), piece.run.style.value)).collect();
    assert_eq!(texts, [("羽", 1), ("bc", 2)]);
    assert_eq!(
        cell_pieces("羽bcd羽", &runs, visual(1, 5)).expect_err("split"),
        LayoutError::OffsetOverflow
    );
    assert_eq!(
        cell_pieces("羽", &runs, visual(0, 9)).expect_err("behind"),
        LayoutError::OffsetOverflow
    );
}

#[test]
fn a_drag_goes_on_only_in_its_revision_and_with_a_pointer() {
    let now = Revision::new(3);
    let at = |bits: u32| Pointer { bits, finite: true };
    let nowhere = Pointer { bits: 0x7F80_0000, finite: false };
    let target = TableResizeTarget::Column { index: 1 };
    let mut drag =
        TableResizeGesture::begin(now, 7, target, at(100), at(101)).expect("drag");
    assert_eq!((drag.revision(), drag.block_index(), drag.target()), (now, 7, target));
    let bad = TableResizeGestureError::NonFinitePointer(0x7F80_0000);
    assert_eq!(TableResizeGesture::begin(now, 7, target, nowhere, at(1)), Err(bad));
    assert_eq!(TableResizeGesture::begin(now, 7, target, at(1), nowhere), Err(bad));
    let before = drag;
    for (a, b, c) in [(nowhere, at(1), at(1)), (at(1), nowhere, at(1)), (at(1), at(1), nowhere)] {
        assert_eq!(drag.update(now, a, b, c), Err(bad));
        assert_eq!(drag, before);
    }
    let stale = TableResizeGestureError::StaleRevision {
        expected: now,
        actual: Revision::new(4),
    };
    assert_eq!(drag.update(Revision::new(4), at(1), at(1), at(1)), Err(stale));
    drag.update(now, at(120), at(19), at(119)).expect("moved");
    assert_eq!((drag.divider, drag.start, drag.current), (100, 101, 120));
    assert_eq!(drag.finish(now), Ok(drag));
    assert_eq!(drag.finish(Revision::new(4)), Err(stale));
    assert_eq!(drag.cancel(now), Ok(()));
    assert_eq!(drag.cancel(Revision::new(4)), Err(stale));
    assert_eq!(TableResizeTarget::Row { index: 2 }, TableResizeTarget::Row { index: 2 });
}
