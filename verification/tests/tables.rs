//! Editing pipe tables and pasting grids into them.
use yu_editor::document::cell_selection::{
    cells_to_clear, edited_table_caret, grid_paste_is_outside_table, reselect_cells,
    select_table_cells, table_cell_selection, table_target_is_html,
};
use yu_editor::document::error::EditorDocumentError;
use yu_editor::document::layout_context::{
    block_layout_for_visual_state, selection_reveal_block_index, VisualRoute,
};
use yu_editor::document::session::{
    markdown_table_grid, pasted_table_source, EditorDocument,
};
use yu_editor::document::table_edit::{table_edit_plan, TableBlock, TableEdit};
use yu_editor::document::table_paste::{
    accept_table_grid, begin_table_grid, serialize_grid, table_grid_plan, CellInput,
};
use yu_editor::document::table_widths::{
    SavedTableWidths, TableAnchor, TableWidths, WidthHistory,
};
use yu_editor::document::tabular_text::{copy_table_tsv, parse_tsv, tsv_grid};
use yu_editor::edit::{Edit, Transaction};
use yu_editor::grid::{SourceSpan, TableCellAddress, TableGrid};
use yu_editor::hidden::HiddenRanges;
use yu_editor::history::{HistoryEntry, HistoryGroup};
use yu_editor::offset::{ByteOffset, TextRange};
use yu_editor::selection::{CaretAffinity, EditorSelection, SelectionError, Selections};
use yu_editor::visual::VisualText;

/// The cells of one line, which stands at `base`.
fn read_cells(line: &str, base: usize) -> Vec<SourceSpan> {
    let mut rest = line;
    while rest.starts_with('>') || rest.starts_with(' ') || rest.starts_with("- ") {
        rest = &rest[1..];
    }
    let mut at = line.len() - rest.len();
    if rest.starts_with('|') {
        at += 1;
    }
    let bytes = line.as_bytes();
    let mut cells = Vec::new();
    let mut start = at;
    let mut code = false;
    let mut i = at;
    while i <= bytes.len() {
        let ends = i == bytes.len() || (bytes[i] == b'|' && !code);
        if i < bytes.len() && bytes[i] == b'`' {
            code = !code;
        }
        if i < bytes.len() && bytes[i] == b'\\' && !code {
            i += 2;
            continue;
        }
        if ends {
            let part = &line[start..i];
            if i < bytes.len() || !part.trim().is_empty() {
                let trimmed = part.trim();
                let from = if trimmed.is_empty() {
                    start + usize::from(!part.is_empty())
                } else {
                    start + part.find(trimmed).expect("part")
                };
                cells.push(SourceSpan::new(base + from, base + from + trimmed.len()));
            }
            start = i + 1;
        }
        i += 1;
    }
    cells
}

/// Reads the table that fills `text[start..end]`, if it is one.
fn read_table(text: &str, start: usize, end: usize) -> Option<TableBlock> {
    let mut lines = Vec::new();
    let mut ranges = Vec::new();
    let mut sources = Vec::new();
    let mut at = start;
    for line in text[start..end].split_inclusive('\n') {
        let content = line.trim_end_matches(['\r', '\n']);
        lines.push(read_cells(content, at));
        ranges.push(SourceSpan::new(at, at + content.len()));
        sources.push(SourceSpan::new(at, at + line.len()));
        at += line.len();
    }
    let delimiter = lines.get(1)?;
    let dashes = delimiter.iter().all(|cell| {
        let part = &text[cell.start..cell.end];
        !part.is_empty() && part.chars().all(|c| c == '-' || c == ':')
    });
    if !dashes {
        return None;
    }
    TableBlock::new(text, SourceSpan::new(start, end), lines, ranges, sources)
}

fn whole_table(text: &str) -> TableBlock {
    read_table(text, 0, text.len()).expect("table remains recognized")
}

fn address_of(table: &TableBlock, offset: usize) -> Option<TableCellAddress> {
    for row in 0..table.visible_row_count() {
        for column in 0..table.column_count() {
            let address = TableCellAddress::new(row, column);
            let cell = table.visible_cell(address).expect("cell");
            if cell.start <= offset && offset <= cell.end {
                return Some(address);
            }
        }
    }
    None
}

fn grid_of(table: &TableBlock) -> TableGrid {
    let (rows, columns) = (table.visible_row_count(), table.column_count());
    let mut cells = Vec::new();
    for row in 0..rows {
        for column in 0..columns {
            cells.push(table.visible_cell(TableCellAddress::new(row, column)).expect("cell"));
        }
    }
    let slots = (0..cells.len()).map(Some).collect();
    TableGrid::new(columns, cells, slots).expect("grid")
}

fn range(start: usize, end: usize) -> TextRange {
    TextRange::new(ByteOffset::new(start as u64), ByteOffset::new(end as u64)).expect("ordered")
}

/// Applies a group of steps, and returns the steps that take them back.
fn replay(document: &mut EditorDocument, group: Vec<HistoryEntry>) -> Vec<HistoryEntry> {
    let mut back = Vec::new();
    for entry in &group {
        let transaction = entry.transaction_for(document.buffer.revision());
        let applied = document.buffer.apply(&transaction).expect("step applies");
        back.push(HistoryEntry::new(applied.inverse, entry.group()));
    }
    back
}

fn undo(document: &mut EditorDocument) {
    let group = document.history.pop_undo_group().expect("undo");
    let back = replay(document, group);
    document.history.push_redo_group(back);
}

fn redo(document: &mut EditorDocument) {
    let group = document.history.pop_redo_group().expect("redo");
    let back = replay(document, group);
    document.history.push_undo_group(back);
}

/// A caret at each of the places, the first of them primary.
fn carets(text: &str, places: &[usize]) -> Selections {
    let carets = places
        .iter()
        .map(|at| {
            let offset = ByteOffset::new(*at as u64);
            EditorSelection::cursor(text, offset, CaretAffinity::Downstream).expect("caret")
        })
        .collect();
    Selections::new(text, carets, 0).expect("selections")
}

/// Makes a structural edit at the first place of `focus`, and says where the caret is.
fn edit_at(document: &mut EditorDocument, focus: &str, edit: TableEdit) -> Option<ByteOffset> {
    let source = document.buffer.as_str().to_owned();
    let table = whole_table(&source);
    let at = source.find(focus).expect("cell");
    let current = address_of(&table, at).expect("address");
    let plan = table_edit_plan(&source, &table, current, &carets(&source, &[at]), edit)?;
    let (target, table_start) = (plan.target, plan.table_start);
    document.edit_table(Some(plan)).expect("edit").expect("change");
    let after = document.buffer.as_str();
    let parsed = read_table(after, 0, after.len());
    let grid = parsed.as_ref().map(grid_of);
    Some(edited_table_caret(grid.as_ref(), target, table_start, document.buffer.len_bytes()))
}

#[test]
fn table_column_commands_preserve_other_bytes_and_restore_history() {
    for (first, rest) in [
        ("", ""),
        ("> ", "> "),
        ("> > ", "> > "),
        ("- ", "  "),
        ("> - ", ">   "),
    ] {
        for eol in ["\n", "\r\n"] {
            let source = format!(
                "{first}| A | B | C |{eol}{rest}| :--- | ---: | :---: |{eol}{rest}| left\\|pipe | middle | 中文🪶 |{eol}"
            );
            for (edit, header, delimiter, body, columns) in [
                (
                    TableEdit::InsertColumnBefore,
                    "| A |  | B | C |",
                    "| :--- | --- | ---: | :---: |",
                    "| left\\|pipe |  | middle | 中文🪶 |",
                    4,
                ),
                (
                    TableEdit::InsertColumnAfter,
                    "| A | B |  | C |",
                    "| :--- | ---: | --- | :---: |",
                    "| left\\|pipe | middle |  | 中文🪶 |",
                    4,
                ),
                (
                    TableEdit::DeleteColumn,
                    "| A | C |",
                    "| :--- | :---: |",
                    "| left\\|pipe | 中文🪶 |",
                    2,
                ),
                (
                    TableEdit::AlignLeft,
                    "| A | B | C |",
                    "| :--- | :--- | :---: |",
                    "| left\\|pipe | middle | 中文🪶 |",
                    3,
                ),
                (
                    TableEdit::AlignCenter,
                    "| A | B | C |",
                    "| :--- | :---: | :---: |",
                    "| left\\|pipe | middle | 中文🪶 |",
                    3,
                ),
                (
                    TableEdit::AlignDefault,
                    "| A | B | C |",
                    "| :--- | --- | :---: |",
                    "| left\\|pipe | middle | 中文🪶 |",
                    3,
                ),
            ] {
                let mut document = EditorDocument::new(source.clone());
                let caret = edit_at(&mut document, "middle", edit).expect("applies");
                let expected =
                    format!("{first}{header}{eol}{rest}{delimiter}{eol}{rest}{body}{eol}");
                assert_eq!(document.buffer.as_str(), expected, "{first:?} {edit:?}");
                let parsed = whole_table(&expected);
                assert_eq!(parsed.column_count(), columns);
                assert!(address_of(&parsed, caret.get() as usize).is_some());
                undo(&mut document);
                assert_eq!(document.buffer.as_str(), source);
                redo(&mut document);
                assert_eq!(document.buffer.as_str(), expected);
            }
        }
    }
}

#[test]
fn table_row_commands_preserve_containers_line_endings_and_new_cell_focus() {
    for (first, rest) in [
        ("", ""),
        ("> ", "> "),
        ("> > ", "> > "),
        ("- ", "  "),
        ("> - ", ">   "),
    ] {
        for eol in ["\n", "\r\n"] {
            for ending in ["", eol] {
                let source = format!(
                    "{first}| A | B |{eol}{rest}| --- | --- |{eol}{rest}| x | y |{ending}"
                );
                for edit in [
                    TableEdit::InsertRowBefore,
                    TableEdit::InsertRowAfter,
                    TableEdit::DeleteRow,
                ] {
                    let mut document = EditorDocument::new(source.clone());
                    let caret = edit_at(&mut document, "y", edit).expect("applies");
                    let header = format!("{first}| A | B |{eol}{rest}| --- | --- |{eol}");
                    let expected = match edit {
                        TableEdit::InsertRowBefore => {
                            format!("{header}{rest}|  |  |{eol}{rest}| x | y |{ending}")
                        }
                        TableEdit::InsertRowAfter => {
                            format!("{header}{rest}| x | y |{eol}{rest}|  |  |{ending}")
                        }
                        _ => header,
                    };
                    assert_eq!(document.buffer.as_str(), expected, "{first:?} {edit:?}");
                    let parsed = whole_table(&expected);
                    assert_eq!(
                        parsed.visible_row_count(),
                        if edit == TableEdit::DeleteRow { 1 } else { 3 }
                    );
                    let address =
                        address_of(&parsed, caret.get() as usize).expect("caret inside table");
                    assert_eq!(address.column(), 1);
                    document
                        .apply_isolated(
                            vec![Edit::new(TextRange::empty(caret), "新".to_owned())],
                            HistoryGroup::Typing,
                        )
                        .expect("input follows new caret");
                    undo(&mut document);
                    assert_eq!(document.buffer.as_str(), expected);
                    undo(&mut document);
                    assert_eq!(document.buffer.as_str(), source);
                }
            }
        }
    }
}

#[test]
fn deleting_edge_columns_keeps_implicit_outer_pipe_tables_recognizable() {
    for prefix in ["", "> "] {
        let source = format!("{prefix}A | B\n{prefix}:--- | ---:\n{prefix}`x|y` | 中文\n");
        for (focus_text, header, delimiter, body) in [
            ("中文", "A", ":---", "`x|y`"),
            ("`x|y`", "B", "---:", "中文"),
        ] {
            let mut document = EditorDocument::new(source.clone());
            edit_at(&mut document, focus_text, TableEdit::DeleteColumn).expect("delete edge");
            assert_eq!(
                document.buffer.as_str(),
                format!("{prefix}| {header} |\n{prefix}| {delimiter} |\n{prefix}| {body} |\n")
            );
            assert_eq!(whole_table(document.buffer.as_str()).column_count(), 1);
            undo(&mut document);
            assert_eq!(document.buffer.as_str(), source);
        }
    }
}

#[test]
fn table_single_column_and_header_guards_remain_editable() {
    let source = "| A | B |\n| --- | --- |\n| `a|b` | 中文 |\n";
    let mut document = EditorDocument::new(source.to_owned());
    edit_at(&mut document, "中文", TableEdit::DeleteColumn).expect("delete second column");
    assert_eq!(document.buffer.as_str(), "| A |\n| --- |\n| `a|b` |\n");
    assert_eq!(whole_table(document.buffer.as_str()).column_count(), 1);
    for edit in [TableEdit::DeleteRow, TableEdit::InsertRowBefore] {
        assert!(edit_at(&mut document, "A", edit).is_none(), "header protected");
    }
    assert!(document.edit_table(None).expect("no command").is_none());
    edit_at(&mut document, "A", TableEdit::InsertRowAfter).expect("insert below header");
    assert_eq!(document.buffer.as_str(), "| A |\n| --- |\n|  |\n| `a|b` |\n");
    edit_at(&mut document, "A", TableEdit::DeleteColumn).expect("delete final column");
    assert_eq!(document.buffer.as_str(), "");
    undo(&mut document);
    assert_eq!(document.buffer.as_str(), "| A |\n| --- |\n|  |\n| `a|b` |\n");
}

#[test]
fn merged_rectangle_expands_transitively_and_keeps_unique_ranges() {
    let source = "<table><tr><td rowspan='2'>中文🙂</td><td colspan='2'>B</td></tr><tr><td>C</td><td rowspan='2'>D</td></tr><tr><td>E</td><td>F</td></tr></table>\r\n";
    let cells: Vec<SourceSpan> = ["中文🙂", ">B<", ">C<", ">D<", ">E<", ">F<"]
        .iter()
        .map(|text| {
            let inner = text.trim_matches(['<', '>']);
            let start = source.find(text).expect("cell") + usize::from(text.starts_with('>'));
            SourceSpan::new(start, start + inner.len())
        })
        .collect();
    let slots = vec![
        Some(0),
        Some(1),
        Some(1),
        Some(0),
        Some(2),
        Some(3),
        Some(4),
        Some(5),
        Some(3),
    ];
    let grid = TableGrid::new(3, cells, slots.clone()).expect("grid");
    let covered = TableCellAddress::new(1, 0);
    let other = TableCellAddress::new(1, 1);
    let bounds = grid.selection_bounds(covered, other).expect("bounds");
    assert_eq!(bounds.first, TableCellAddress::new(0, 0));
    assert_eq!(bounds.last, TableCellAddress::new(2, 2));
    for (start, end, primary) in [(covered, other, 2), (other, covered, 0)] {
        let selected = grid.table_cell_selection_in_grid(start, end).expect("selection");
        assert_eq!(selected.columns, 3);
        assert_eq!(selected.primary, primary);
        assert_eq!(selected.ranges.len(), 6);
        assert_eq!(selected.slots, slots);
        let state = select_table_cells(false, source, Some(&grid), Some(start), Some(end))
            .expect("unique ranges");
        assert_eq!(state.primary_index(), primary);
        assert_eq!(state.table_columns(), Some(3));
        assert_eq!(state.len(), 6);
    }
}

#[test]
fn clear_table_retains_sparse_slots_and_noncorner_primary_through_history() {
    let source = "<table><tr><td>中文🙂</td><td>B</td></tr><tr><td>C</td></tr></table>\r\n";
    let expected = "<table><tr><td></td><td></td></tr><tr><td></td></tr></table>\r\n";
    let emptied = [15, 24, 42].map(|at| SourceSpan::new(at, at)).to_vec();
    for primary in 0..3 {
        let mut document = EditorDocument::new(source.to_owned());
        let spans = ["中文🙂", "B", "C"].map(|text| {
            let start = source.find(text).expect("content");
            SourceSpan::new(start, start + text.len())
        });
        let ranges = spans
            .iter()
            .map(|span| {
                EditorSelection::range(
                    source,
                    ByteOffset::new(span.start as u64),
                    ByteOffset::new(span.end as u64),
                    CaretAffinity::Downstream,
                )
                .expect("range")
            })
            .collect();
        let slots = vec![Some(0), Some(1), Some(2), None];
        let selections = Selections::new(source, ranges, primary)
            .expect("select")
            .with_table_slots(2, slots.clone())
            .expect("sparse selection");
        let found = [(0, 0), (0, 1), (1, 0)]
            .map(|(row, column)| Some(TableCellAddress::new(row, column)));
        let left = vec![String::new(); 3];
        let addresses = document
            .clear_table_cells(&selections, true, &found, &left)
            .expect("clear")
            .expect("changed");
        assert_eq!(document.buffer.as_str(), expected);
        for span in &emptied {
            assert_eq!(&expected[span.start - 1..span.start], ">");
            assert!(expected[span.start..].starts_with("</td>"));
        }
        let grid = TableGrid::new(2, emptied.clone(), slots.clone()).expect("grid");
        let after = reselect_cells(
            document.buffer.as_str(),
            &grid,
            &addresses,
            selections.primary_index(),
            2,
            &slots,
        )
        .expect("select again");
        assert_eq!(after.primary_index(), primary);
        assert_eq!(after.table.as_ref().expect("cells").slots, slots);
        assert_eq!(after.len(), 3);
        assert!(after.ranges.iter().all(|selection| selection.is_empty()));
        assert!(document
            .clear_table_cells(&after, true, &found, &left)
            .expect("empty already")
            .is_none());
        assert_eq!(document.history.stats().undo_entries(), 1);
        undo(&mut document);
        assert_eq!(document.buffer.as_str(), source);
        redo(&mut document);
        assert_eq!(document.buffer.as_str(), expected);
    }
}

#[test]
fn only_cells_of_a_table_can_be_cleared() {
    let text = "ab";
    let caret = EditorSelection::cursor(text, ByteOffset::new(0), CaretAffinity::Downstream)
        .expect("caret");
    let plain = Selections::new(text, vec![caret], 0).expect("selection");
    let found = [Some(TableCellAddress::new(0, 0))];
    assert_eq!(
        cells_to_clear(&plain, true, &found).expect_err("no cells"),
        EditorDocumentError::InvalidTablePaste
    );
    let cell = Selections::new(text, vec![caret], 0)
        .expect("selection")
        .with_table_slots(1, vec![Some(0)])
        .expect("cell");
    let invalid = EditorDocumentError::Selection(SelectionError::InvalidRange);
    assert_eq!(cells_to_clear(&cell, false, &found).expect_err("no table"), invalid);
    assert_eq!(cells_to_clear(&cell, true, &[None]).expect_err("no cell"), invalid);
    let mut document = EditorDocument::new(text.to_owned());
    let left = vec![String::new()];
    assert_eq!(
        document.clear_table_cells(&cell, true, &[None], &left).expect_err("no cell"),
        invalid
    );
    assert_eq!(
        document.clear_table_cells(&plain, true, &found, &left).expect_err("no cells"),
        EditorDocumentError::InvalidTablePaste
    );
    assert_eq!(cells_to_clear(&cell, true, &found).expect("cells"), [TableCellAddress::new(0, 0)]);
    assert!(grid_paste_is_outside_table(false, &plain, &[false], &[false]));
    assert!(!grid_paste_is_outside_table(false, &plain, &[true], &[false]));
    assert!(!grid_paste_is_outside_table(false, &plain, &[false], &[true]));
    assert!(!grid_paste_is_outside_table(false, &cell, &[false], &[false]));
    assert!(grid_paste_is_outside_table(true, &plain, &[true], &[false]));
    assert!(!grid_paste_is_outside_table(true, &plain, &[true], &[true]));
}

#[test]
fn rectangles_that_leave_the_table_or_split_a_character_are_refused() {
    let text = "羽x";
    let grid =
        TableGrid::new(1, vec![SourceSpan::new(0, 3), SourceSpan::new(1, 4)], vec![Some(0), Some(1)])
            .expect("grid");
    let top = TableCellAddress::new(0, 0);
    let invalid = EditorDocumentError::Selection(SelectionError::InvalidRange);
    let select = |end: TableCellAddress| {
        select_table_cells(false, text, Some(&grid), Some(top), Some(end))
    };
    assert_eq!(select(TableCellAddress::new(2, 0)).expect_err("outside"), invalid);
    assert_eq!(select(TableCellAddress::new(1, 0)).expect_err("split"), invalid);
    assert_eq!(select(top).expect("cell").len(), 1);
    for (source_mode, table, start, end) in [
        (true, Some(&grid), Some(top), Some(top)),
        (false, None, Some(top), Some(top)),
        (false, Some(&grid), None, Some(top)),
        (false, Some(&grid), Some(top), None),
    ] {
        assert!(table_cell_selection(source_mode, table, start, end).is_none());
        assert_eq!(
            select_table_cells(source_mode, text, table, start, end).expect_err("refused"),
            invalid
        );
    }
    let found = table_cell_selection(false, Some(&grid), Some(top), Some(top)).expect("cell");
    assert_eq!((found.columns, found.primary), (1, 0));
}

/// Quotes a cell's text: bars outside code are escaped, and a backslash before a bar is
/// doubled.
fn quote(text: &str, before_pipe: bool) -> String {
    let mut out = String::new();
    let mut code = false;
    let mut escaped = false;
    for c in text.chars() {
        if c == '`' {
            code = !code;
        }
        if c == '|' && !code && !escaped {
            out.push('\\');
        }
        escaped = c == '\\' && !escaped;
        out.push(c);
    }
    if before_pipe && escaped {
        out.push('\\');
    }
    out
}

fn input(text: &str) -> CellInput {
    CellInput {
        text: text.to_owned(),
        quoted: Some(quote(text, false)),
        quoted_before_pipe: Some(quote(text, true)),
    }
}

/// Pastes cells over the selection into the table at `text[start..end]`.
fn paste_into(
    document: &mut EditorDocument,
    bounds: (usize, usize),
    selections: &Selections,
    columns: usize,
    cells: &[&str],
) -> Result<Selections, EditorDocumentError> {
    let source = document.buffer.as_str().to_owned();
    let table = read_table(&source, bounds.0, bounds.1).expect("table");
    let first = selections.ranges[0].ordered_range().start().get() as usize;
    let paste = begin_table_grid(
        &source,
        &table,
        selections,
        address_of(&table, first),
        columns,
        cells.iter().map(|cell| input(cell)).collect(),
        Some(String::new()),
        Some("---".to_owned()),
    )?;
    let draft = table_grid_plan(&source, &table, &paste)?;
    let written = draft.source.clone();
    let parsed = read_table(&written, 0, written.len());
    let plan = accept_table_grid(draft, &table, &paste, parsed.as_ref())?;
    let (anchor, focus) = (plan.anchor, plan.focus);
    document.apply_table_grid_plan(plan)?;
    let after = document.buffer.as_str();
    let end = after.len() - (source.len() - bounds.1);
    let table = read_table(after, bounds.0, end).expect("table");
    select_table_cells(
        false,
        after,
        Some(&grid_of(&table)),
        address_of(&table, anchor),
        address_of(&table, focus),
    )
}

fn select(text: &str, first: &str, last: &str) -> Selections {
    let table = whole_table(text);
    let at = |needle: &str| address_of(&table, text.find(needle).expect("cell"));
    select_table_cells(false, text, Some(&grid_of(&table)), at(first), at(last)).expect("cells")
}

#[test]
fn grid_paste_grows_rows_columns_preserving_source_and_undo() {
    for prefix in ["", "> ", "> > "] {
        for eol in ["\n", "\r\n"] {
            for terminal in [false, true] {
                let source = format!(
                    "{prefix}| A | B |{eol}{prefix}| :---- | ----: |{eol}{prefix}| x | y |{}",
                    if terminal { eol } else { "" }
                );
                let mut document = EditorDocument::new(source.clone());
                let before = select(&source, "y", "y");
                let after = paste_into(
                    &mut document,
                    (0, source.len()),
                    &before,
                    2,
                    &["中文|羽", "**bold**", "", "🪶"],
                )
                .expect("paste");
                let expected = format!(
                    "{prefix}| A | B |  |{eol}{prefix}| :---- | ----: | --- |{eol}{prefix}| x | 中文\\|羽 | **bold** |{eol}{prefix}|  |  | 🪶 |{}",
                    if terminal { eol } else { "" }
                );
                assert_eq!(document.buffer.as_str(), expected);
                assert_eq!(after.table_columns(), Some(2));
                assert_eq!(after.len(), 4);
                undo(&mut document);
                assert_eq!(document.buffer.as_str(), source);
                redo(&mut document);
                assert_eq!(document.buffer.as_str(), expected);
            }
        }
    }
}

#[test]
fn scalar_fills_rectangle_but_grid_uses_its_own_dimensions() {
    let source = "| A | B | C |\n| --- | --- | --- |\n| x | y | z |\n";
    let mut document = EditorDocument::new(source.to_owned());
    let selections = select(source, "A", "y");
    let bounds = (0, source.len());
    paste_into(&mut document, bounds, &selections, 1, &["q"]).expect("fill");
    assert_eq!(
        document.buffer.as_str(),
        "| q | q | C |\n| --- | --- | --- |\n| q | q | z |\n"
    );
    undo(&mut document);
    let after =
        paste_into(&mut document, bounds, &selections, 1, &["one", "two", "three"]).expect("grid");
    assert_eq!(
        document.buffer.as_str(),
        "| one | B | C |\n| --- | --- | --- |\n| two | y | z |\n| three |  |  |\n"
    );
    assert_eq!(after.table_columns(), Some(1));
    assert_eq!(after.len(), 3);
}

#[test]
fn invalid_grid_never_mutates_source_selection_or_history() {
    let source = "| A | B |\n| --- | --- |\n| x | y |";
    let mut document = EditorDocument::new(source.to_owned());
    let selections = select(source, "A", "y");
    for (columns, cells) in [
        (0, vec!["x"]),
        (2, vec!["x"]),
        (1, vec![]),
        (1, vec!["a\nb"]),
    ] {
        assert_eq!(
            paste_into(&mut document, (0, source.len()), &selections, columns, &cells)
                .expect_err("invalid paste rejected"),
            EditorDocumentError::InvalidTablePaste
        );
        assert_eq!(document.buffer.as_str(), source);
        assert_eq!(document.buffer.revision().get(), 0);
        assert_eq!(selections.ranges, select(source, "A", "y").ranges);
        assert_eq!(selections.table_columns(), Some(2));
    }
    assert_eq!(document.history.stats().undo_entries(), 0);
    assert!(document.history.pop_undo_group().is_none());
}

#[test]
fn grid_preserves_list_continuation_and_compact_delimiters() {
    for source in ["A|B\n---|---\nx|y", "- |A|B|\n  |---|---|\n  |x|y|"] {
        let mut document = EditorDocument::new(source.to_owned());
        let selections = select(source, "y", "y");
        paste_into(&mut document, (0, source.len()), &selections, 2, &["q", "", "r", "s"])
            .expect("paste");
        let parsed = whole_table(document.buffer.as_str());
        assert_eq!(parsed.column_count(), 3);
        assert_eq!(parsed.visible_row_count(), 3);
        assert_eq!(
            document.buffer.as_str().lines().filter(|line| line.starts_with("- ")).count(),
            usize::from(source.starts_with("- "))
        );
        undo(&mut document);
        assert_eq!(document.buffer.as_str(), source);
    }
}

#[test]
fn grid_from_single_caret_preserves_surroundings_and_compact_escape_boundaries() {
    let source = "before\n\n|A|B|\n|:---|---:|\n|x|y|\n\nafter\n";
    let mut document = EditorDocument::new(source.to_owned());
    let start = source.find('|').expect("table");
    let end = source.find("\nafter").expect("end");
    let at = source.find('x').expect("cell") as u64;
    let caret = EditorSelection::cursor(source, ByteOffset::new(at), CaretAffinity::Downstream)
        .expect("caret");
    let selections = Selections::new(source, vec![caret], 0).expect("selection");
    let after = paste_into(&mut document, (start, end), &selections, 3, &["\\", "`a|b`", ""])
        .expect("paste");
    assert_eq!(
        document.buffer.as_str(),
        "before\n\n|A|B | |\n|:---|---: | ---|\n|\\\\|`a|b` | |\n\nafter\n"
    );
    assert_eq!(after.len(), 3);
    undo(&mut document);
    assert_eq!(document.buffer.as_str(), source);
}

#[test]
fn arbitrary_multicaret_and_cross_cell_ranges_are_not_grid_targets() {
    let source = "| A | B |\n| --- | --- |\n| x | y |";
    let mut document = EditorDocument::new(source.to_owned());
    let a = ByteOffset::new(source.find('A').expect("cell") as u64);
    let b = ByteOffset::new(source.find('B').expect("cell") as u64);
    let carets = [a, b]
        .map(|at| EditorSelection::cursor(source, at, CaretAffinity::Downstream).expect("caret"));
    let multiple = Selections::new(source, carets.to_vec(), 0).expect("selections");
    let across = EditorSelection::range(source, a, b, CaretAffinity::Downstream).expect("range");
    let single = Selections::new(source, vec![across], 0).expect("selection");
    for selections in [&multiple, &single] {
        assert_eq!(
            paste_into(&mut document, (0, source.len()), selections, 1, &["q"])
                .expect_err("invalid paste rejected"),
            EditorDocumentError::InvalidTablePaste
        );
    }
    assert_eq!(document.buffer.as_str(), source);
    assert!(document.history.pop_undo_group().is_none());
}

#[test]
fn external_markdown_table_pastes_cells_not_delimiter_source() {
    let source = "> | H |\r\n> | :---- |\r\n> | z |";
    let mut document = EditorDocument::new(source.to_owned());
    let clipboard = "\n| **A** | `a|b` |\n| :---: | ---: |\n| x\\|y | 🪶 |\n\n";
    let inner = pasted_table_source(clipboard);
    let table = whole_table(&inner);
    let grid = grid_of(&table);
    let cells = markdown_table_grid(&inner, &grid.cells).expect("cells");
    let texts: Vec<&str> = cells.iter().map(String::as_str).collect();
    let after = paste_into(&mut document, (0, source.len()), &select(source, "z", "z"), 2, &texts)
        .expect("external table");
    let expected = "> | H |  |\r\n> | :---- | --- |\r\n> | **A** | `a|b` |\r\n> | x\\|y | 🪶 |";
    assert_eq!(document.buffer.as_str(), expected);
    assert_eq!(after.table_columns(), Some(2));
    assert_eq!(after.len(), 4);
    undo(&mut document);
    assert_eq!(document.buffer.as_str(), source);
    redo(&mut document);
    assert_eq!(document.buffer.as_str(), expected);
}

#[test]
fn clipboard_table_recognition_requires_the_entire_payload() {
    for source in [
        "before\n\n| A | B |\n| --- | --- |",
        "| A | B |\n| --- | --- |\n\nafter",
        "x\ty\na\tb",
        "ordinary\nprose",
        "| A | B |\n| --- | --- |\n| incomplete |",
    ] {
        let inner = pasted_table_source(source);
        assert!(read_table(&inner, 0, inner.len()).is_none(), "{source:?}");
    }
    let inner = pasted_table_source("| A |\r\n| --- |\r\n| |\r\n");
    let table = whole_table(&inner);
    assert_eq!(table.column_count(), 1);
    let cells = markdown_table_grid(&inner, &grid_of(&table).cells).expect("one-column table");
    assert_eq!(cells, ["A", ""]);
    assert_eq!(pasted_table_source("\r\n\n"), "");
    assert!(markdown_table_grid("羽", &[SourceSpan::new(0, 1)]).is_none());
}

#[test]
fn tsv_command_preserves_literal_markdown_and_atomic_history() {
    let source = "> | H |\r\n> | :--- |\r\n> | z |";
    let mut document = EditorDocument::new(source.to_owned());
    let (columns, cells) =
        tsv_grid("**bold**\tx|y\r\n羽\t\"say \"\"hi\"\"\"\r\n").expect("grid");
    let texts: Vec<&str> = cells.iter().map(String::as_str).collect();
    let after =
        paste_into(&mut document, (0, source.len()), &select(source, "z", "z"), columns, &texts)
            .expect("paste TSV");
    let expected = concat_text(&[
        "> | H |  |\r\n> | :--- | --- |\r\n",
        r"> | \*\*bold\*\* | x\|y |",
        "\r\n",
        r#"> | 羽 | say \"hi\" |"#,
    ]);
    assert_eq!(document.buffer.as_str(), expected);
    assert_eq!(after.table_columns(), Some(2));
    undo(&mut document);
    assert_eq!(document.buffer.as_str(), source);
    redo(&mut document);
    assert_eq!(document.buffer.as_str(), expected);
}

fn concat_text(parts: &[&str]) -> String {
    parts.iter().copied().collect()
}

#[test]
fn malformed_tsv_fails_before_any_edit() {
    let document = EditorDocument::new("original".to_owned());
    for text in ["\"bad", "\"closed\"tail"] {
        assert_eq!(
            tsv_grid(text).expect_err("malformed quoted input"),
            EditorDocumentError::InvalidTablePaste
        );
    }
    assert_eq!(document.buffer.as_str(), "original");
    assert_eq!(document.buffer.revision().get(), 0);
    assert_eq!(document.history.stats().undo_entries(), 0);
}

#[test]
fn plain_tabbed_text_only_infers_a_grid_inside_a_table() {
    let (columns, cells) = tsv_grid("a\tb\n").expect("grid");
    let inputs = cells.iter().map(|cell| input(cell)).collect();
    assert_eq!(
        serialize_grid(columns, &inputs).expect("tabular paste"),
        "| a | b |\n| --- | --- |"
    );
    let source = "| x |\n| --- |";
    let mut table = EditorDocument::new(source.to_owned());
    let texts: Vec<&str> = cells.iter().map(String::as_str).collect();
    paste_into(&mut table, (0, source.len()), &select(source, "x", "x"), columns, &texts)
        .expect("contextual grid");
    assert_eq!(table.buffer.as_str(), "| a | b |\n| --- | --- |");
}

#[test]
fn rectangular_cells_include_empty_cells_and_restore_after_deletion() {
    for prefix in ["", "> ", "> > "] {
        let source = format!(
            "{prefix}| A | B | C |\n{prefix}| --- | --- | --- |\n{prefix}| a |  | 中文 |\n{prefix}| b | x | 🪶 |\n"
        );
        for reversed in [false, true] {
            let mut document = EditorDocument::new(source.clone());
            let (first, last) = if reversed { ("🪶", "B") } else { ("B", "🪶") };
            let selections = select(&source, first, last);
            assert_eq!(selections.table_columns(), Some(2));
            assert_eq!(selections.len(), 6);
            assert_eq!(selections.primary_index(), if reversed { 0 } else { 5 });
            assert_eq!(selections.ranges.iter().filter(|s| s.is_empty()).count(), 1);
            let table = whole_table(&source);
            let found: Vec<Option<TableCellAddress>> = selections
                .ranges
                .iter()
                .map(|s| address_of(&table, s.ordered_range().start().get() as usize))
                .collect();
            let left = vec![String::new(); selections.len()];
            let addresses = document
                .clear_table_cells(&selections, true, &found, &left)
                .expect("clear selected cells")
                .expect("changed");
            let expected = source
                .replace(['B', 'C'], "")
                .replace("中文", "")
                .replace(['x', '🪶'], "");
            assert_eq!(document.buffer.as_str(), expected);
            let parsed = whole_table(&expected);
            assert_eq!(parsed.column_count(), 3);
            let slots = selections.table.as_ref().expect("cells").slots.clone();
            let after = reselect_cells(
                &expected,
                &grid_of(&parsed),
                &addresses,
                selections.primary_index(),
                2,
                &slots,
            )
            .expect("select again");
            assert_eq!(after.table_columns(), Some(2));
            assert_eq!(after.primary_index(), if reversed { 0 } else { 5 });
            assert!(after
                .ranges
                .iter()
                .all(|s| address_of(&parsed, s.focus().get() as usize).is_some()));
            undo(&mut document);
            assert_eq!(document.buffer.as_str(), source);
            redo(&mut document);
            assert_eq!(document.buffer.as_str(), expected);
        }
    }
}

#[test]
fn rectangular_selection_rejects_cross_table_endpoints_without_changes() {
    let source = "| A | B |\n| --- | --- |\n\noutside\n";
    let mut document = EditorDocument::new(source.to_owned());
    let before = carets(source, &[0]);
    let mut selections = carets(source, &[0]);
    let table = read_table(source, 0, source.find("\noutside").expect("end")).expect("table");
    let grid = grid_of(&table);
    let anchor = address_of(&table, 2);
    let focus = address_of(&table, source.find("outside").expect("outside"));
    assert!(anchor.is_some());
    assert!(table_cell_selection(false, Some(&grid), anchor, focus).is_none());
    match select_table_cells(false, source, Some(&grid), anchor, focus) {
        Ok(made) => selections = made,
        Err(error) => assert_eq!(
            error,
            EditorDocumentError::Selection(SelectionError::InvalidRange)
        ),
    }
    assert_eq!(selections.ranges, before.ranges);
    assert_eq!(selections.primary_index(), before.primary_index());
    assert_eq!(selections.table_columns(), None);
    assert_eq!(document.buffer.as_str(), source);
    assert_eq!(document.buffer.revision().get(), 0);
    assert!(document.history.pop_undo_group().is_none());
}

#[test]
fn a_plan_for_another_revision_is_refused() {
    let mut document = EditorDocument::new("abc".to_owned());
    let stale = Transaction::new(yu_editor::offset::Revision::new(3), Vec::new());
    assert!(document.buffer.apply(&stale).is_err());
    let outside = vec![Edit::replace(2, 9, String::new())];
    assert!(document.apply_isolated(outside, HistoryGroup::External).is_err());
    assert_eq!(document.buffer.as_str(), "abc");
}

#[test]
fn an_html_table_goes_before_a_pipe_table() {
    assert_eq!(table_target_is_html(false, true, true), Some(true));
    assert_eq!(table_target_is_html(false, false, true), Some(false));
    assert_eq!(table_target_is_html(false, false, false), None);
    assert_eq!(table_target_is_html(true, true, true), Some(false));
    assert_eq!(table_target_is_html(true, true, false), None);
}

const WIDTHS_TABLE: &str = "| H | B |\n| --- | --- |\n| one | two |\n";

/// A document with saved column widths that follow its history.
struct Widths {
    document: EditorDocument,
    widths: TableWidths,
    saved: WidthHistory,
    undo_tokens: Vec<u64>,
    redo_tokens: Vec<u64>,
}

impl Widths {
    fn new(source: &str) -> Self {
        Self {
            document: EditorDocument::new(source.to_owned()),
            widths: TableWidths { entries: Vec::new(), generation: 0 },
            saved: WidthHistory::new(),
            undo_tokens: Vec::new(),
            redo_tokens: Vec::new(),
        }
    }

    fn text(&self) -> &str {
        self.document.buffer.as_str()
    }

    /// The delimiter line of the table that fills the document.
    fn anchor(&self) -> Option<TableAnchor> {
        let text = self.text();
        let table = read_table(text, 0, text.len())?;
        let line = table.row_ranges[1];
        let delimiter = Some(range(line.start, line.end));
        Some(TableAnchor { delimiter, columns: table.column_count() })
    }

    fn resize(&mut self, widths: &[u32]) {
        let anchor = self.anchor().expect("table");
        assert_eq!(anchor.columns, widths.len());
        let delimiter = anchor.delimiter.expect("delimiter");
        self.widths.confirm_table_column_widths(delimiter, widths.to_vec());
    }

    fn prune(&mut self) {
        let kept = self.document.history.stats().undo_entries();
        self.undo_tokens.drain(..self.undo_tokens.len() - kept);
        let tokens = self.undo_tokens.iter().chain(&self.redo_tokens).copied().collect();
        self.saved.prune(&tokens);
    }

    fn edit(&mut self, edits: Vec<Edit>, kind: HistoryGroup) {
        let token = self.saved.capture(&self.widths.entries);
        let before = self.text().to_owned();
        let transaction = Transaction::new(self.document.buffer.revision(), edits);
        let applied = self.document.buffer.apply(&transaction).expect("edit applies");
        self.widths.map_table_widths(&before, self.document.buffer.as_str(), &applied.changes);
        self.document.history.record(&applied, kind);
        self.undo_tokens.push(token);
        self.redo_tokens.clear();
        self.prune();
    }

    fn replay(&mut self, undo: bool) {
        let group = if undo {
            self.document.history.pop_undo_group()
        } else {
            self.document.history.pop_redo_group()
        };
        let mut back = Vec::new();
        for entry in &group.expect("a step") {
            let token = if undo { self.undo_tokens.pop() } else { self.redo_tokens.pop() };
            let here = self.saved.capture(&self.widths.entries);
            let before = self.text().to_owned();
            let transaction = entry.transaction_for(self.document.buffer.revision());
            let applied = self.document.buffer.apply(&transaction).expect("step applies");
            self.widths.map_table_widths(
                &before,
                self.document.buffer.as_str(),
                &applied.changes,
            );
            let anchor = self.anchor();
            let checkpoint =
                self.saved.checkpoints.iter().find(|checkpoint| Some(checkpoint.token) == token);
            if let Some(checkpoint) = checkpoint {
                let tables = vec![anchor; checkpoint.widths.len()];
                self.widths.restore_width_history(&checkpoint.widths, &tables);
            }
            back.push(HistoryEntry::new(applied.inverse, entry.group()));
            if undo {
                self.redo_tokens.push(here);
            } else {
                self.undo_tokens.push(here);
            }
        }
        if undo {
            self.document.history.push_redo_group(back);
        } else {
            self.document.history.push_undo_group(back);
        }
        self.prune();
    }

    fn proportions(&self) -> &[u32] {
        let SavedTableWidths { proportions, .. } = &self.widths.entries[0];
        proportions
    }
}

#[test]
fn structural_edit_replay_captures_later_manual_widths() {
    for edit in [TableEdit::InsertColumnAfter, TableEdit::DeleteColumn] {
        let mut session = Widths::new(WIDTHS_TABLE);
        session.resize(&[1, 2]);
        let at = WIDTHS_TABLE.find("one").expect("cell");
        let table = whole_table(WIDTHS_TABLE);
        let current = address_of(&table, at).expect("address");
        let caret = carets(WIDTHS_TABLE, &[at]);
        let plan =
            table_edit_plan(WIDTHS_TABLE, &table, current, &caret, edit).expect("structure");
        session.edit(plan.edits, HistoryGroup::TableEditing);
        let edited = session.text().to_owned();
        let after = if edit == TableEdit::InsertColumnAfter {
            session.resize(&[3, 4, 5]);
            Some([3, 4, 5])
        } else {
            None
        };
        for _ in 0..3 {
            session.replay(true);
            assert_eq!(session.text(), WIDTHS_TABLE);
            assert_eq!(session.proportions(), [1, 2]);
            session.replay(false);
            assert_eq!(session.text(), edited);
            if let Some(after) = &after {
                assert_eq!(session.proportions(), after);
            }
        }
    }
}

#[test]
fn grouped_table_deletion_and_prefix_edits_restore_in_order() {
    let mut session = Widths::new(WIDTHS_TABLE);
    session.resize(&[1, 2]);
    let whole = Edit::replace(0, WIDTHS_TABLE.len(), "tail".to_owned());
    session.edit(vec![whole], HistoryGroup::External);
    session.edit(vec![Edit::replace(0, 0, "prefix ".to_owned())], HistoryGroup::External);
    for _ in 0..3 {
        session.replay(true);
        assert_eq!(session.text(), WIDTHS_TABLE);
        assert_eq!(session.proportions(), [1, 2]);
        session.replay(false);
        assert_eq!(session.text(), "prefix tail");
        assert!(session.widths.entries.is_empty());
    }
}

#[test]
fn checkpoints_are_bounded_and_reset_cannot_leak_widths() {
    let mut session = Widths::new(WIDTHS_TABLE);
    session.resize(&[1, 2]);
    for _ in 0..530 {
        session.document.history.break_group();
        let end = session.text().len();
        session.edit(vec![Edit::replace(end, end, "\n".to_owned())], HistoryGroup::External);
    }
    assert_eq!(
        session.saved.checkpoints.len(),
        session.document.history.stats().undo_entries()
    );
    assert!(session.saved.checkpoints.len() <= 512);
    session.replay(true);
    session.document.history.break_group();
    let end = session.text().len();
    session.edit(vec![Edit::replace(end, end, "different".to_owned())], HistoryGroup::External);
    assert_eq!(
        session.saved.checkpoints.len(),
        session.document.history.stats().undo_entries()
    );
    session.document.history.clear();
    session.redo_tokens.clear();
    session.prune();
    session
        .widths
        .restore_table_column_width_records(Vec::new(), &Vec::new(), &Vec::new())
        .expect("reset");
    assert!(session.widths.entries.is_empty());
    assert!(session.saved.checkpoints.is_empty());
}

#[test]
fn external_table_outside_cells_keeps_original_source_and_alignment() {
    let mut document = EditorDocument::new(String::new());
    let clipboard = "\nA | B\r\n:----- | ---:\r\nx | y\n";
    let caret = EditorSelection::cursor("", ByteOffset::new(0), CaretAffinity::Downstream)
        .expect("caret");
    let selections = Selections::new("", vec![caret], 0).expect("selection");
    assert!(grid_paste_is_outside_table(false, &selections, &[false], &[false]));
    let edits = vec![Edit::replace(0, 0, clipboard.to_owned())];
    document.apply_isolated(edits, HistoryGroup::External).expect("ordinary paste");
    assert_eq!(document.buffer.as_str(), clipboard);
    undo(&mut document);
    assert_eq!(document.buffer.as_str(), "");
}

/// The text that the Markdown of a cell shows: escapes, character references and line
/// breaks stand for what they name, and the marks of emphasis and code are hidden.
fn shown(cell: &str) -> String {
    let mut out = String::new();
    let mut rest = cell;
    while let Some(c) = rest.chars().next() {
        if c == '\\' && rest.len() > 1 {
            let escaped = rest[1..].chars().next().expect("character");
            out.push(escaped);
            rest = &rest[1 + escaped.len_utf8()..];
            continue;
        }
        let token = [("&#32;", " "), ("&#9;", "\t"), ("<br>", "\n"), ("**", ""), ("`", "")]
            .into_iter()
            .find(|(written, _)| rest.starts_with(written));
        if let Some((written, stands_for)) = token {
            out.push_str(stands_for);
            rest = &rest[written.len()..];
        } else {
            out.push(c);
            rest = &rest[c.len_utf8()..];
        }
    }
    out
}

/// What the selected cells show.
fn shown_cells(text: &str, selections: &Selections) -> Vec<String> {
    selections
        .ranges
        .iter()
        .map(|selection| {
            let cell = selection.ordered_range();
            shown(&text[cell.start().get() as usize..cell.end().get() as usize])
        })
        .collect()
}

/// Pastes tab-separated text over the selected cells of the table that fills the document.
fn paste_tsv(document: &mut EditorDocument, selections: &Selections, text: &str) -> Selections {
    let (columns, cells) = tsv_grid(text).expect("tab-separated text");
    let texts: Vec<&str> = cells.iter().map(String::as_str).collect();
    let end = document.buffer.as_str().len();
    paste_into(document, (0, end), selections, columns, &texts).expect("paste")
}

#[test]
fn multiline_tsv_encodes_data_and_projects_it_without_changing_table_shape() {
    let source = "> | H | V |\r\n> | --- | --- |\r\n> | x | y |";
    let mut document = EditorDocument::new(source.to_owned());
    let after = paste_tsv(
        &mut document,
        &select(source, "x", "x"),
        "\" first\r\nsecond \"\t\"a\tb\"\r\n\"<br>\"\t\" \"",
    );
    let expected = "> | H | V |\r\n> | --- | --- |\r\n> | &#32;first<br>second&#32; | a&#9;b |\r\n> | \\<br\\> | &#32; |";
    assert_eq!(document.buffer.as_str(), expected);
    assert_eq!(shown_cells(expected, &after), [" first\nsecond ", "a\tb", "<br>", " "]);
    assert_eq!(grid_of(&whole_table(expected)).cells.len(), 6);
    undo(&mut document);
    assert_eq!(document.buffer.as_str(), source);
    redo(&mut document);
    assert_eq!(document.buffer.as_str(), expected);
}

#[test]
fn copied_tsv_preserves_visible_data_and_roundtrips_quoted_boundaries() {
    let whole = |text: &str| Some(range(0, text.len()));
    for prefix in ["", "> "] {
        let source = format!("{prefix}| H | V |\n{prefix}| --- | --- |\n{prefix}| x | y |");
        let mut document = EditorDocument::new(source.clone());
        let input = "\" first\nsecond \"\t\"a\tb\"\n\"say \"\"羽\"\"\"\t\n**literal**\t<br>";
        let selections = paste_tsv(&mut document, &select(&source, "x", "x"), input);
        let before = document.buffer.as_str().to_owned();
        let revision = document.buffer.revision();
        let visible = shown_cells(&before, &selections);
        let copied =
            copy_table_tsv(&selections, whole(&before), &visible).expect("copy").expect("grid");
        assert_eq!(
            parse_tsv(&copied).expect("decode copy"),
            parse_tsv(input).expect("decode input")
        );
        assert_eq!(document.buffer.revision(), revision);
        assert_eq!(document.buffer.as_str(), before);
        paste_tsv(&mut document, &selections, &copied);
        assert_eq!(document.buffer.as_str(), before);
    }
    let styled = "| **bold** | `code` |\n| --- | --- |";
    let table = whole_table(styled);
    let selections = select_table_cells(
        false,
        styled,
        Some(&grid_of(&table)),
        address_of(&table, 2),
        address_of(&table, 14),
    )
    .expect("select styled");
    let visible = shown_cells(styled, &selections);
    assert_eq!(
        copy_table_tsv(&selections, whole(styled), &visible).expect("copy"),
        Some("bold\tcode".to_owned())
    );
}

#[test]
fn rectangular_selection_does_not_reveal_inline_source_delimiters() {
    let source = "| **A** | B |\n| --- | --- |\n| `code` | C |\n";
    let document = EditorDocument::new(source.to_owned());
    let selections = select(source, "code", "A");
    assert_eq!(selections.table_columns(), Some(1));
    let marks = ["**A", "** |", "`code", "` |"].map(|mark| {
        let at = source.find(mark).expect("mark");
        range(at, at + if mark.starts_with('*') { 2 } else { 1 })
    });
    let canonical = HiddenRanges::new(source, marks.to_vec()).expect("hidden");
    let revealed = HiddenRanges::new(source, marks[2..].to_vec()).expect("hidden");
    let cells_selected = selections.table_columns().is_some();
    assert_eq!(selection_reveal_block_index(false, false, Some(0), &canonical, &revealed), Some(0));
    let reveal =
        selection_reveal_block_index(false, cells_selected, Some(0), &canonical, &revealed);
    assert!(reveal.is_none());
    assert_eq!(block_layout_for_visual_state(0, None, reveal), VisualRoute::Canonical);
    let visual = VisualText::new(
        source,
        document.buffer.revision(),
        range(0, source.len()),
        canonical,
    )
    .expect("projection");
    assert!(!visual.text().contains("**") && !visual.text().contains('`'));
    assert_eq!(document.buffer.as_str(), source);
}

#[test]
fn structure_is_not_edited_with_several_selections() {
    let source = "| A | B |\n| --- | --- |\n| x | y |";
    let table = whole_table(source);
    let at = |needle: &str| source.find(needle).expect("cell");
    let current = address_of(&table, at("x")).expect("address");
    for edit in [TableEdit::DeleteRow, TableEdit::InsertColumnAfter, TableEdit::AlignLeft] {
        let plan = |selections: &Selections| {
            table_edit_plan(source, &table, current, selections, edit)
        };
        assert!(plan(&carets(source, &[at("x")])).is_some());
        assert!(plan(&carets(source, &[at("x"), at("y")])).is_none());
        assert!(plan(&select(source, "x", "y")).is_none());
    }
}
