//! Saved column widths.
use yu_editor::document::error::EditorDocumentError;
use yu_editor::document::table_widths::{
    table_width_anchor_is_current, SavedTableWidths, TableAnchor, TableWidths, WidthHistory,
};
use yu_editor::edit::{Edit, TextBuffer, Transaction};
use yu_editor::offset::{ByteOffset, TextRange};

const TABLE: &str = "| A | B |\n| --- | --- |\n| one | two |\n";

fn range(start: u64, end: u64) -> TextRange {
    TextRange::new(ByteOffset::new(start), ByteOffset::new(end)).expect("ordered")
}

/// Bits of numbers between zero and one, which need no meaning of their own here.
const WHOLE: u32 = 0x3F80_0000;

/// The table whose delimiter line begins at `start`.
fn table(start: u64) -> Option<TableAnchor> {
    Some(TableAnchor { delimiter: Some(range(start, start + 13)), columns: 2 })
}

fn record(start: u64, widths: [u32; 2]) -> SavedTableWidths {
    SavedTableWidths { delimiter: range(start, start + 13), proportions: widths.to_vec() }
}

fn empty() -> TableWidths {
    TableWidths { entries: Vec::new(), generation: 0 }
}

#[test]
fn width_records_round_trip_without_touching_source_or_history() {
    let mut original = empty();
    original.confirm_table_column_widths(range(10, 23), vec![1, 2]);
    let mut reopened = empty();
    let changed = reopened
        .restore_table_column_width_records(
            vec![record(10, [1, 2])],
            &vec![true],
            &vec![table(10)],
        )
        .expect("restore");
    assert_eq!(changed, [range(10, 23)]);
    assert_eq!(reopened.saved_table_widths(range(10, 23), 2), Some(vec![1, 2]));
    assert_eq!(original.saved_table_widths(range(10, 23), 2), Some(vec![1, 2]));
    let generation = reopened.generation;
    let again = reopened
        .restore_table_column_width_records(
            vec![record(10, [1, 2])],
            &vec![true],
            &vec![table(10)],
        )
        .expect("idempotent");
    assert!(again.is_empty());
    assert_eq!(reopened.generation, generation);
    assert!(reopened.has_saved_table_widths(range(0, 40)));
    assert!(!reopened.has_saved_table_widths(range(0, 20)));
}

#[test]
fn invalid_width_records_reject_atomically() {
    let mut widths = empty();
    widths.confirm_table_column_widths(range(10, 23), vec![1, 2]);
    let generation = widths.table_width_generation();
    let whole = |proportions: &[f32]| (proportions.iter().sum::<f32>() - 1.0).abs() <= 0.0001;
    let saved = |proportions: &[f32]| SavedTableWidths {
        delimiter: range(10, 23),
        proportions: proportions.iter().map(|part| part.to_bits()).collect(),
    };
    let good = [0.25_f32, 0.75];
    let mut variants = vec![(
        vec![saved(&good), saved(&good)],
        vec![true, true],
        vec![table(10), table(10)],
    )];
    for proportions in [
        vec![f32::NAN, 0.5],
        vec![f32::INFINITY, 0.5],
        vec![0.0, 1.0],
        vec![0.2, 0.2],
        vec![1.0],
        vec![],
        vec![-0.5, 1.5],
    ] {
        variants.push((
            vec![saved(&proportions)],
            vec![whole(&proportions)],
            vec![table(10)],
        ));
    }
    let stale = SavedTableWidths { delimiter: range(0, 3), ..saved(&good) };
    variants.push((vec![saved(&good), stale], vec![true, true], vec![table(10), table(10)]));
    variants.push((vec![saved(&good)], vec![true], vec![None]));
    for (records, sums, tables) in variants {
        assert_eq!(
            widths
                .restore_table_column_width_records(records, &sums, &tables)
                .expect_err("refused"),
            EditorDocumentError::InvalidTableWidths
        );
        assert_eq!(widths.saved_table_widths(range(10, 23), 2), Some(vec![1, 2]));
        assert_eq!(widths.entries.len(), 1);
        assert_eq!(widths.table_width_generation(), generation);
    }
    widths
        .restore_table_column_width_records(vec![saved(&good)], &vec![whole(&good)], &vec![table(10)])
        .expect("sound");
    assert_eq!(widths.table_column_width_records(&vec![table(10)]).len(), 1);
    widths
        .restore_table_column_width_records(vec![record(10, [WHOLE, 1])], &vec![true], &vec![table(10)])
        .expect("the largest part");
    widths
        .restore_table_column_width_records(Vec::new(), &Vec::new(), &Vec::new())
        .expect("clear");
    assert!(widths.entries.is_empty());
    assert!(widths.table_width_generation() > generation);
}

#[test]
fn restoring_widths_invalidates_only_changed_or_removed_tables() {
    let mut widths = empty();
    widths.confirm_table_column_widths(range(10, 23), vec![1, 2]);
    widths.confirm_table_column_widths(range(60, 73), vec![3, 4]);
    let changed = widths
        .restore_table_column_width_records(
            vec![record(10, [5, 6]), record(60, [3, 4])],
            &vec![true, true],
            &vec![table(10), table(60)],
        )
        .expect("restore");
    assert_eq!(changed, [range(10, 23)]);
    let removed = widths
        .restore_table_column_width_records(
            vec![record(60, [3, 4])],
            &vec![true],
            &vec![table(60)],
        )
        .expect("restore");
    assert_eq!(removed, [range(10, 23)]);
    assert_eq!(widths.saved_table_widths(range(10, 23), 2), None);
    assert_eq!(widths.saved_table_widths(range(60, 73), 3), None);
}

#[test]
fn deleted_table_widths_restore_without_overwriting_later_resize() {
    let original = format!("{TABLE}\n{TABLE}");
    let second = TABLE.len() as u64 + 1;
    let mut widths = empty();
    widths.confirm_table_column_widths(range(10, 23), vec![1, 2]);
    widths.confirm_table_column_widths(range(second + 10, second + 23), vec![3, 4]);
    let mut history = WidthHistory::new();
    let token = history.capture(&widths.entries);
    assert_eq!(token, 1);

    let mut buffer = TextBuffer::new(original.clone());
    let applied = buffer
        .apply(&Transaction::new(
            buffer.revision(),
            vec![Edit::replace(0, second as usize, String::new())],
        ))
        .expect("delete first");
    widths.map_table_widths(&original, buffer.as_str(), &applied.changes);
    assert_eq!(buffer.as_str(), TABLE);
    assert_eq!(widths.saved_table_widths(range(10, 23), 2), Some(vec![3, 4]));
    assert_eq!(widths.entries.len(), 1);
    widths.confirm_table_column_widths(range(10, 23), vec![7, 8]);

    let edited = buffer.as_str().to_owned();
    let undone = applied.inverse.rebased(buffer.revision());
    let back = buffer.apply(&undone).expect("undo");
    widths.map_table_widths(&edited, buffer.as_str(), &back.changes);
    let restored = widths.restore_width_history(
        &history.checkpoints[0].widths,
        &vec![table(10), table(second + 10)],
    );
    assert_eq!(restored, [range(10, 23)]);
    assert_eq!(widths.saved_table_widths(range(10, 23), 2), Some(vec![1, 2]));
    assert_eq!(
        widths.saved_table_widths(range(second + 10, second + 23), 2),
        Some(vec![7, 8])
    );
}

#[test]
fn checkpoints_that_no_step_refers_to_are_dropped() {
    let mut history = WidthHistory::new();
    assert_eq!(history.capture(&Vec::new()), 0);
    let first = history.capture(&vec![record(10, [1, 2])]);
    let second = history.capture(&vec![record(10, [3, 4])]);
    assert_eq!((first, second), (1, 2));
    history.prune(&vec![2]);
    assert_eq!(history.checkpoints.len(), 1);
    assert_eq!(history.checkpoints[0].token, 2);
}

#[test]
fn records_of_tables_that_changed_are_not_saved() {
    let mut widths = empty();
    assert_eq!(widths.table_width_generation(), 0);
    widths.confirm_table_column_widths(range(10, 23), vec![1, 2]);
    widths.confirm_table_column_widths(range(60, 73), vec![3, 4]);
    let other = |columns: usize| Some(TableAnchor { delimiter: Some(range(60, 73)), columns });
    assert!(table_width_anchor_is_current(range(60, 73), 2, other(2)));
    assert!(!table_width_anchor_is_current(range(60, 73), 2, other(3)));
    assert!(!table_width_anchor_is_current(range(60, 73), 2, None));
    let saved = widths.table_column_width_records(&vec![other(2), other(2)]);
    assert_eq!(saved.len(), 1);
    assert_eq!(saved[0].delimiter, range(60, 73));
    assert_eq!(saved[0].proportions, [3, 4]);
    assert_eq!(widths.entries.len(), 2);
    assert_eq!(widths.table_width_generation(), widths.generation);
}
