//! Pasting a grid of cells into a pipe table.
use crate::document::error::EditorDocumentError;
use crate::document::table_edit::{lemma_before_char, nested, TableBlock};
use crate::edit::{
    edit_views, edits_within, lemma_rewritten_push, lemma_rewritten_split, ordered_edits, rewrite,
    rewritten, Edit, EditView,
};
use crate::grid::TableCellAddress;
use crate::offset::{ByteOffset, TextRange};
use crate::selection::Selections;
use crate::text::{
    before_char, contains_char, ends_line, ends_with_newline, has_crlf, line_ending, line_ending_of,
    push_repeated, repeated, same_text, slice, sliceable, span, up_to_char,
};
use vstd::prelude::*;
use vstd::string::*;
use vstd::utf8::*;

verus! {

/// One pasted cell: its text, and the text quoted for a pipe table, once for a
/// cell that a blank follows and once for a cell that a pipe follows at once.
/// A quoted form is missing where the text cannot stand in a cell.
#[derive(Debug)]
pub struct CellInput {
    pub text: String,
    pub quoted: Option<String>,
    pub quoted_before_pipe: Option<String>,
}

/// A grid to be pasted: its cells in row-major order, the slot that takes the
/// first one, and the rectangle that it fills. `blank` and `dashes` are the
/// quoted forms of an empty cell and of a delimiter cell.
#[derive(Debug)]
pub struct GridPaste {
    pub start: TableCellAddress,
    pub columns: usize,
    pub width: usize,
    pub height: usize,
    pub fill: bool,
    pub cells: Vec<CellInput>,
    pub blank: Option<String>,
    pub dashes: Option<String>,
}

/// The text of an optional string.
pub open spec fn quoted_view(text: Option<String>) -> Option<Seq<char>> {
    match text {
        Some(text) => Some(text@),
        None => None,
    }
}

/// Whether `text` breaks a line.
pub open spec fn breaks_line(text: Seq<char>) -> bool {
    text.contains('\n') || text.contains('\r')
}

/// The rectangle that a grid fills: a single cell fills the selected rectangle,
/// any other grid keeps its own dimensions.
pub open spec fn paste_width(columns: int, count: int, table_columns: Option<usize>) -> int {
    match table_columns {
        Some(width) if count == 1 => width as int,
        _ => columns,
    }
}

/// The number of rows that a grid fills.
pub open spec fn paste_height(
    columns: int,
    count: int,
    table_columns: Option<usize>,
    selected: int,
) -> int {
    match table_columns {
        Some(width) if count == 1 => selected / (width as int),
        _ => count / columns,
    }
}

impl GridPaste {
    /// Whether the cells fill the rectangle.
    pub open spec fn wf(self) -> bool {
        &&& self.columns > 0
        &&& self.cells@.len() > 0
        &&& self.width > 0
        &&& self.height > 0
        &&& self.fill || (self.width == self.columns && self.cells@.len() == self.columns
            * self.height)
        &&& self.start.row + self.height <= usize::MAX
        &&& self.start.column + self.width <= usize::MAX
    }

    /// The cell that goes into the slot at `row` and `column`, if one does.
    pub open spec fn payload(self, row: int, column: int) -> Option<int> {
        if self.start.row <= row < self.start.row + self.height && self.start.column <= column
            < self.start.column + self.width {
            Some(
                if self.fill {
                    0
                } else {
                    (row - self.start.row) * self.columns + (column - self.start.column)
                },
            )
        } else {
            None
        }
    }

    /// The quoted text that a new slot gets.
    pub open spec fn slot_text(self, row: int, column: int) -> Option<Seq<char>> {
        match self.payload(row, column) {
            Some(k) => quoted_view(self.cells@[k].quoted),
            None => quoted_view(self.blank),
        }
    }

    /// A grid paste at `start`. `table_columns` is the width of the selected
    /// rectangle where whole cells are selected, and `selected` counts its cells.
    /// `None` where the cells form no rectangle, a cell breaks a line, or the
    /// filled rectangle cannot be addressed.
    pub fn new(
        start: TableCellAddress,
        columns: usize,
        cells: Vec<CellInput>,
        table_columns: Option<usize>,
        selected: usize,
        blank: Option<String>,
        dashes: Option<String>,
    ) -> (r: Option<GridPaste>)
        requires
            table_columns matches Some(width) ==> 0 < width <= selected,
        ensures
            ({
                let width = paste_width(columns as int, cells@.len() as int, table_columns);
                let height = paste_height(
                    columns as int,
                    cells@.len() as int,
                    table_columns,
                    selected as int,
                );
                &&& r is Some <==> columns > 0 && cells@.len() > 0 && cells@.len() % (
                columns as nat) == 0 && (forall|i: int|
                    0 <= i < cells@.len() ==> !breaks_line((#[trigger] cells@[i]).text@))
                    && start.row + height <= usize::MAX && start.column + width <= usize::MAX
                &&& r matches Some(paste) ==> {
                    &&& paste.wf()
                    &&& paste.start == start
                    &&& paste.columns == columns
                    &&& paste.width == width
                    &&& paste.height == height
                    &&& paste.fill == (cells@.len() == 1 && table_columns is Some)
                    &&& paste.cells == cells
                    &&& paste.blank == blank
                    &&& paste.dashes == dashes
                }
            }),
    {
        if columns == 0 || cells.len() == 0 || cells.len() % columns != 0 {
            return None;
        }
        let mut i: usize = 0;
        while i < cells.len()
            invariant
                i <= cells@.len(),
                forall|k: int| 0 <= k < i ==> !breaks_line((#[trigger] cells@[k]).text@),
            decreases cells@.len() - i,
        {
            let text = cells[i].text.as_str();
            if contains_char(text, '\n') || contains_char(text, '\r') {
                assert(breaks_line(cells@[i as int].text@));
                return None;
            }
            i += 1;
        }
        let mut fill = false;
        let mut width: usize = columns;
        let mut height: usize = cells.len() / columns;
        if cells.len() == 1 {
            if let Some(selected_width) = table_columns {
                fill = true;
                width = selected_width;
                height = selected / selected_width;
            }
        }
        proof {
            vstd::arithmetic::div_mod::lemma_fundamental_div_mod(
                cells@.len() as int,
                columns as int,
            );
            assert(columns * 0 == 0);
            assert(cells@.len() as int / columns as int != 0);
            if let Some(selected_width) = table_columns {
                vstd::arithmetic::div_mod::lemma_div_non_zero(
                    selected as int,
                    selected_width as int,
                );
            }
        }
        if start.row.checked_add(height).is_none() || start.column.checked_add(width).is_none() {
            return None;
        }
        Some(GridPaste { start, columns, width, height, fill, cells, blank, dashes })
    }

    fn payload_at(&self, row: usize, column: usize) -> (r: Option<usize>)
        requires
            self.wf(),
        ensures
            match r {
                Some(k) => self.payload(row as int, column as int) == Some(k as int) && k
                    < self.cells@.len(),
                None => self.payload(row as int, column as int) is None,
            },
    {
        if row < self.start.row || row - self.start.row >= self.height || column
            < self.start.column || column - self.start.column >= self.width {
            return None;
        }
        if self.fill {
            return Some(0);
        }
        proof {
            crate::grid::lemma_slot_index(
                self.height as int,
                self.columns as int,
                row - self.start.row,
                column - self.start.column,
            );
            assert(self.height * self.columns == self.columns * self.height) by (nonlinear_arith);
            assert(self.cells@.len() == self.cells.len());
        }
        Some((row - self.start.row) * self.columns + (column - self.start.column))
    }

    fn slot_text_at(&self, row: usize, column: usize) -> (r: Option<&String>)
        requires
            self.wf(),
        ensures
            match r {
                Some(text) => self.slot_text(row as int, column as int) == Some(text@),
                None => self.slot_text(row as int, column as int) is None,
            },
    {
        match self.payload_at(row, column) {
            Some(k) => self.cells[k].quoted.as_ref(),
            None => self.blank.as_ref(),
        }
    }
}

/// The number of columns that the table has after the paste.
pub open spec fn grown_columns(table: TableBlock, paste: GridPaste) -> int {
    if table.columns() < paste.start.column + paste.width {
        paste.start.column + paste.width
    } else {
        table.columns()
    }
}

/// The number of rows that the table shows after the paste.
pub open spec fn grown_rows(table: TableBlock, paste: GridPaste) -> int {
    if table.visible_rows() < paste.start.row + paste.height {
        paste.start.row + paste.height
    } else {
        table.visible_rows()
    }
}

/// The visible row of a line. The delimiter line counts as the header's.
pub open spec fn visible_row(line: int) -> int {
    if line == 0 {
        0
    } else {
        line - 1
    }
}

/// The cell that goes into column `column` of line `line`, if one does.
pub open spec fn line_payload(paste: GridPaste, line: int, column: int) -> Option<int> {
    if line == 1 {
        None
    } else {
        paste.payload(visible_row(line), column)
    }
}

/// Whether the table gets new columns, which hang behind its last cell.
pub open spec fn grows_at(table: TableBlock, paste: GridPaste, column: int) -> bool {
    column + 1 == table.columns() && grown_columns(table, paste) > table.columns()
}

/// Whether the paste rewrites column `column` of line `line`.
pub open spec fn patched(table: TableBlock, paste: GridPaste, line: int, column: int) -> bool {
    line_payload(paste, line, column) is Some || grows_at(table, paste, column)
}

/// Whether the byte at `at` is a pipe.
pub open spec fn pipe_at(text: Seq<char>, at: int) -> bool {
    0 <= at < encode_utf8(text).len() && encode_utf8(text)[at] == 0x7c
}

/// What replaces the cell's own text, before any new columns.
pub open spec fn cell_text(
    text: Seq<char>,
    table: TableBlock,
    paste: GridPaste,
    line: int,
    column: int,
) -> Option<Seq<char>> {
    let cell = table.lines@[line]@[column];
    match line_payload(paste, line, column) {
        Some(k) => if pipe_at(text, cell.end as int) && !grows_at(table, paste, column) {
            quoted_view(paste.cells@[k].quoted_before_pipe)
        } else {
            quoted_view(paste.cells@[k].quoted)
        },
        None => Some(span(text, cell.start as int, cell.end as int)),
    }
}

/// The text of new column `column` of line `line`.
pub open spec fn new_column_text(paste: GridPaste, line: int, column: int) -> Option<Seq<char>> {
    if line == 1 {
        quoted_view(paste.dashes)
    } else {
        paste.slot_text(visible_row(line), column)
    }
}

/// The new columns of line `line` from `first` up to `end`.
pub open spec fn new_columns(paste: GridPaste, line: int, first: int, end: int) -> Option<Seq<char>>
    decreases end - first,
{
    if end <= first {
        Some(Seq::empty())
    } else {
        match (new_columns(paste, line, first, end - 1), new_column_text(paste, line, end - 1)) {
            (Some(before), Some(text)) => Some(before + " | "@ + text),
            _ => None,
        }
    }
}

/// Whether line `line` closes with a pipe.
pub open spec fn closes_with_pipe(text: Seq<char>, table: TableBlock, line: int) -> bool {
    span(
        text,
        table.lines@[line]@.last().end as int,
        table.row_ranges@[line].end as int,
    ).contains('|')
}

/// What the paste writes over column `column` of line `line`. A line that had
/// no closing pipe gets one with its new columns, so that an empty new cell is
/// still read as a cell.
pub open spec fn patch_text(
    text: Seq<char>,
    table: TableBlock,
    paste: GridPaste,
    line: int,
    column: int,
) -> Option<Seq<char>> {
    match cell_text(text, table, paste, line, column) {
        None => None,
        Some(own) => if grows_at(table, paste, column) {
            match new_columns(paste, line, table.columns(), grown_columns(table, paste)) {
                None => None,
                Some(added) => Some(
                    own + added + (if closes_with_pipe(text, table, line) {
                        Seq::empty()
                    } else {
                        " |"@
                    }),
                ),
            }
        } else {
            Some(own)
        },
    }
}

/// The edits that the paste makes in the first `columns` cells of line `line`:
/// one for each cell whose text changes. `None` where a text cannot be quoted.
pub open spec fn line_patches(
    text: Seq<char>,
    table: TableBlock,
    paste: GridPaste,
    line: int,
    columns: int,
) -> Option<Seq<EditView>>
    decreases columns,
{
    if columns <= 0 {
        Some(Seq::empty())
    } else {
        match line_patches(text, table, paste, line, columns - 1) {
            None => None,
            Some(before) => if !patched(table, paste, line, columns - 1) {
                Some(before)
            } else {
                match patch_text(text, table, paste, line, columns - 1) {
                    None => None,
                    Some(made) => {
                        let cell = table.lines@[line]@[columns - 1];
                        if made == span(text, cell.start as int, cell.end as int) {
                            Some(before)
                        } else {
                            Some(
                                before.push(
                                    EditView {
                                        start: cell.start as int,
                                        end: cell.end as int,
                                        text: made,
                                    },
                                ),
                            )
                        }
                    },
                }
            },
        }
    }
}

/// The edits that the paste makes in the first `lines` lines.
pub open spec fn cell_patches(text: Seq<char>, table: TableBlock, paste: GridPaste, lines: int)
    -> Option<Seq<EditView>>
    decreases lines,
{
    if lines <= 0 {
        Some(Seq::empty())
    } else {
        match (
            cell_patches(text, table, paste, lines - 1),
            line_patches(text, table, paste, lines - 1, table.columns()),
        ) {
            (Some(before), Some(here)) => Some(before + here),
            _ => None,
        }
    }
}

/// The first `columns` cells of new row `row`.
pub open spec fn new_row_cells(paste: GridPaste, row: int, columns: int) -> Option<Seq<char>>
    decreases columns,
{
    if columns <= 0 {
        Some(Seq::empty())
    } else {
        match (new_row_cells(paste, row, columns - 1), paste.slot_text(row, columns - 1)) {
            (Some(before), Some(text)) => Some(before + " "@ + text + " |"@),
            _ => None,
        }
    }
}

/// What a new line starts with: the prefix of the container that holds the table.
pub open spec fn row_prefix(text: Seq<char>, table: TableBlock) -> Seq<char> {
    before_char(
        span(text, table.row_ranges@[1].start as int, table.lines@[1]@[0].start as int),
        '|',
    )
}

/// The table `body` with `count` new rows behind it, numbered from `first` on,
/// each on a line of its own.
pub open spec fn with_new_rows(
    paste: GridPaste,
    first: int,
    columns: int,
    eol: Seq<char>,
    prefix: Seq<char>,
    body: Seq<char>,
    count: int,
) -> Option<Seq<char>>
    decreases count,
{
    if count <= 0 {
        Some(body)
    } else {
        match (
            with_new_rows(paste, first, columns, eol, prefix, body, count - 1),
            new_row_cells(paste, first + count - 1, columns),
        ) {
            (Some(before), Some(cells)) => Some(
                before + new_line(eol, prefix, cells, ends_line(before), ends_line(body)),
            ),
            _ => None,
        }
    }
}

/// One new line: it starts on a line of its own, and ends its line if the table
/// did.
pub open spec fn new_line(
    eol: Seq<char>,
    prefix: Seq<char>,
    cells: Seq<char>,
    on_new_line: bool,
    closed: bool,
) -> Seq<char> {
    (if on_new_line {
        Seq::empty()
    } else {
        eol
    }) + prefix + "|"@ + cells + (if closed {
        eol
    } else {
        Seq::empty()
    })
}

/// The table's source after the paste, or `None` where a text cannot be quoted.
pub open spec fn pasted_source(text: Seq<char>, table: TableBlock, paste: GridPaste) -> Option<
    Seq<char>,
> {
    match cell_patches(text, table, paste, table.lines@.len() as int) {
        None => None,
        Some(edits) => with_new_rows(
            paste,
            table.visible_rows(),
            grown_columns(table, paste),
            line_ending(span(text, table.source.start as int, table.source.end as int)),
            row_prefix(text, table),
            rewritten(text, table.source.start as int, table.source.end as int, edits),
            grown_rows(table, paste) - table.visible_rows(),
        ),
    }
}

/// A paste before its result was read back: the table's source after it, and
/// the edits that lead there.
#[derive(Debug)]
pub struct TableGridDraft {
    pub range: TextRange,
    pub source: String,
    pub edits: Vec<Edit>,
}

/// Edits inside line `line` that touch nothing behind its first `columns` cells.
spec fn edits_of_line(
    text: Seq<char>,
    table: TableBlock,
    line: int,
    columns: int,
    edits: Seq<EditView>,
) -> bool {
    &&& ordered_edits(text, edits)
    &&& forall|i: int|
        0 <= i < edits.len() ==> {
            &&& table.row_ranges@[line].start <= (#[trigger] edits[i]).start
            &&& edits[i].end <= table.row_ranges@[line].end
            &&& columns < table.columns() ==> edits[i].end <= table.lines@[line]@[columns].start
        }
}

proof fn lemma_line_patches(
    text: Seq<char>,
    table: TableBlock,
    paste: GridPaste,
    line: int,
    columns: int,
)
    requires
        table.wf(text),
        0 <= line < table.lines@.len(),
        0 <= columns <= table.columns(),
    ensures
        line_patches(text, table, paste, line, columns) matches Some(edits) ==> edits_of_line(
            text,
            table,
            line,
            columns,
            edits,
        ),
    decreases columns,
{
    assert(table.line_wf(text, line));
    if columns > 0 {
        lemma_line_patches(text, table, paste, line, columns - 1);
        if let Some(edits) = line_patches(text, table, paste, line, columns) {
            let before = line_patches(text, table, paste, line, columns - 1)->0;
            let cell = table.lines@[line]@[columns - 1];
            assert(nested(text, table.row_ranges@[line], cell));
            if columns < table.columns() {
                assert(cell.end <= table.lines@[line]@[columns].start);
            }
            assert forall|i: int| 0 <= i < edits.len() implies {
                &&& table.row_ranges@[line].start <= (#[trigger] edits[i]).start
                &&& edits[i].end <= table.row_ranges@[line].end
                &&& columns < table.columns() ==> edits[i].end <= table.lines@[line]@[columns].start
            } by {
                if i < before.len() {
                    assert(edits[i] == before[i]);
                }
            }
            assert(ordered_edits(text, edits)) by {
                assert forall|i: int| 0 <= i < edits.len() implies sliceable(
                    text,
                    (#[trigger] edits[i]).start,
                    edits[i].end,
                ) by {
                    if i < before.len() {
                        assert(edits[i] == before[i]);
                    }
                }
                assert forall|i: int, j: int|
                    #![trigger edits[i], edits[j]]
                    0 <= i < j < edits.len() implies edits[i].end <= edits[j].start by {
                    assert(edits[i] == before[i]);
                    if j < before.len() {
                        assert(edits[j] == before[j]);
                    }
                }
            }
        }
    }
}

proof fn lemma_cell_patches(text: Seq<char>, table: TableBlock, paste: GridPaste, lines: int)
    requires
        table.wf(text),
        0 <= lines <= table.lines@.len(),
    ensures
        cell_patches(text, table, paste, lines) matches Some(edits) ==> {
            &&& ordered_edits(text, edits)
            &&& edits_within(edits, table.source.start as int, table.source.end as int)
            &&& lines < table.lines@.len() ==> forall|i: int|
                0 <= i < edits.len() ==> (#[trigger] edits[i]).end
                    <= table.row_ranges@[lines].start
        },
    decreases lines,
{
    if lines > 0 {
        lemma_cell_patches(text, table, paste, lines - 1);
        lemma_line_patches(text, table, paste, lines - 1, table.columns());
        assert(table.line_wf(text, lines - 1));
        if let Some(edits) = cell_patches(text, table, paste, lines) {
            let before = cell_patches(text, table, paste, lines - 1)->0;
            let here = line_patches(text, table, paste, lines - 1, table.columns())->0;
            assert forall|i: int| 0 <= i < edits.len() implies {
                &&& sliceable(text, (#[trigger] edits[i]).start, edits[i].end)
                &&& table.source.start <= edits[i].start
                &&& edits[i].end <= table.source.end
                &&& lines < table.lines@.len() ==> edits[i].end <= table.row_ranges@[lines].start
            } by {
                if i < before.len() {
                    assert(edits[i] == before[i]);
                    assert(edits[i].end <= table.row_ranges@[lines - 1].start);
                } else {
                    assert(edits[i] == here[i - before.len()]);
                }
                if lines < table.lines@.len() {
                    assert(table.row_ranges@[lines - 1].end <= table.row_ranges@[lines].start);
                }
            }
            assert forall|i: int, j: int|
                #![trigger edits[i], edits[j]]
                0 <= i < j < edits.len() implies edits[i].end <= edits[j].start by {
                if j < before.len() {
                    assert(edits[i] == before[i] && edits[j] == before[j]);
                } else if i < before.len() {
                    assert(edits[i] == before[i] && edits[j] == here[j - before.len()]);
                } else {
                    assert(edits[i] == here[i - before.len()] && edits[j] == here[j
                        - before.len()]);
                }
            }
        }
    }
}

/// What the paste writes over one cell, or `None` where a text cannot be quoted.
fn patch_cell(source: &str, table: &TableBlock, paste: &GridPaste, line: usize, column: usize) -> (r:
    Option<String>)
    requires
        table.wf(source@),
        paste.wf(),
        line < table.lines@.len(),
        column < table.columns(),
    ensures
        match r {
            Some(made) => patch_text(source@, *table, *paste, line as int, column as int) == Some(
                made@,
            ),
            None => patch_text(source@, *table, *paste, line as int, column as int) is None,
        },
{
    assert(table.line_wf(source@, line as int));
    let columns: usize = table.column_count();
    let end_column: usize = paste.start.column + paste.width;
    let grows = column + 1 == columns && end_column > columns;
    let cell = table.lines[line][column];
    let physical = table.row_ranges[line];
    assert(nested(source@, physical, cell));
    let row: usize = if line == 0 {
        0
    } else {
        line - 1
    };
    let input = if line == 1 {
        None
    } else {
        paste.payload_at(row, column)
    };
    let mut made = match input {
        Some(k) => {
            let bytes = source.as_bytes();
            let before_pipe = cell.end < bytes.len() && bytes[cell.end] == 0x7c;
            let quoted = if before_pipe && !grows {
                paste.cells[k].quoted_before_pipe.as_ref()
            } else {
                paste.cells[k].quoted.as_ref()
            };
            match quoted {
                Some(text) => text.clone(),
                None => {
                    return None;
                },
            }
        },
        None => slice(source, cell.start, cell.end).to_owned(),
    };
    if grows {
        let ghost own = made@;
        let mut next: usize = columns;
        assert(own + Seq::<char>::empty() =~= own);
        while next < end_column
            invariant
                paste.wf(),
                table.lines@.len() >= 2,
                columns == table.columns(),
                columns <= next <= end_column,
                row == visible_row(line as int),
                new_columns(*paste, line as int, columns as int, next as int) is Some,
                made@ == own + new_columns(*paste, line as int, columns as int, next as int)->0,
                end_column == grown_columns(*table, *paste),
                patch_text(source@, *table, *paste, line as int, column as int) is Some
                    ==> new_columns(*paste, line as int, columns as int, end_column as int) is Some,
            decreases end_column - next,
        {
            let text = if line == 1 {
                paste.dashes.as_ref()
            } else {
                paste.slot_text_at(row, next)
            };
            match text {
                Some(text) => {
                    let ghost before = made@;
                    made.push_str(" | ");
                    made.push_str(text.as_str());
                    assert(made@ =~= own + new_columns(
                        *paste,
                        line as int,
                        columns as int,
                        next + 1,
                    )->0);
                },
                None => {
                    proof {
                        lemma_new_columns_missing(
                            *paste,
                            line as int,
                            columns as int,
                            next as int,
                            end_column as int,
                        );
                    }
                    return None;
                },
            }
            next += 1;
        }
        let last = table.lines[line][columns - 1];
        assert(nested(source@, physical, last));
        if !contains_char(slice(source, last.end, physical.end), '|') {
            made.push_str(" |");
        }
        assert(made@ =~= patch_text(source@, *table, *paste, line as int, column as int)->0);
    }
    Some(made)
}

proof fn lemma_new_columns_missing(paste: GridPaste, line: int, first: int, missing: int, end: int)
    requires
        first <= missing < end,
        new_column_text(paste, line, missing) is None,
    ensures
        new_columns(paste, line, first, end) is None,
    decreases end - missing,
{
    if end > missing + 1 {
        lemma_new_columns_missing(paste, line, first, missing, end - 1);
    }
}

/// The edits that the paste makes in the table's own cells.
fn cell_edits(source: &str, table: &TableBlock, paste: &GridPaste) -> (r: Option<Vec<Edit>>)
    requires
        table.wf(source@),
        paste.wf(),
    ensures
        match r {
            Some(edits) => cell_patches(source@, *table, *paste, table.lines@.len() as int) == Some(
                edit_views(edits@),
            ),
            None => cell_patches(source@, *table, *paste, table.lines@.len() as int) is None,
        },
{
    let mut edits: Vec<Edit> = Vec::new();
    let columns: usize = table.column_count();
    let end_column: usize = paste.start.column + paste.width;
    let mut line: usize = 0;
    assert(edit_views(edits@) =~= Seq::empty());
    while line < table.lines.len()
        invariant
            table.wf(source@),
            paste.wf(),
            columns == table.columns(),
            end_column == paste.start.column + paste.width,
            line <= table.lines@.len(),
            cell_patches(source@, *table, *paste, line as int) == Some(edit_views(edits@)),
        decreases table.lines@.len() - line,
    {
        assert(table.line_wf(source@, line as int));
        let ghost before = edit_views(edits@);
        let ghost mut here: Seq<EditView> = Seq::empty();
        let row: usize = if line == 0 {
            0
        } else {
            line - 1
        };
        let mut column: usize = 0;
        assert(edit_views(edits@) =~= before + here);
        while column < columns
            invariant
                table.wf(source@),
                paste.wf(),
                columns == table.columns(),
                end_column == paste.start.column + paste.width,
                line < table.lines@.len(),
                table.line_wf(source@, line as int),
                row == visible_row(line as int),
                column <= columns,
                cell_patches(source@, *table, *paste, line as int) == Some(before),
                line_patches(source@, *table, *paste, line as int, column as int) == Some(here),
                edit_views(edits@) == before + here,
            decreases columns - column,
        {
            let cell = table.lines[line][column];
            assert(nested(source@, table.row_ranges@[line as int], cell));
            let wanted = (line != 1 && paste.payload_at(row, column).is_some()) || (column + 1
                == columns && end_column > columns);
            if wanted {
                match patch_cell(source, table, paste, line, column) {
                    None => {
                        proof {
                            lemma_line_missing(
                                source@,
                                *table,
                                *paste,
                                line as int,
                                column as int,
                                columns as int,
                            );
                            lemma_cells_missing(
                                source@,
                                *table,
                                *paste,
                                line as int,
                                table.lines@.len() as int,
                            );
                        }
                        return None;
                    },
                    Some(made) => {
                        if !same_text(made.as_str(), slice(source, cell.start, cell.end)) {
                            let ghost old_edits = edits@;
                            let edit = Edit::replace(cell.start, cell.end, made);
                            edits.push(edit);
                            proof {
                                here = here.push(edit@);
                                assert(edit_views(edits@) =~= edit_views(old_edits).push(edit@));
                                assert(edit_views(edits@) =~= before + here);
                            }
                        }
                    },
                }
            }
            column += 1;
        }
        line += 1;
    }
    Some(edits)
}

proof fn lemma_line_missing(
    text: Seq<char>,
    table: TableBlock,
    paste: GridPaste,
    line: int,
    missing: int,
    columns: int,
)
    requires
        0 <= missing < columns,
        patched(table, paste, line, missing),
        patch_text(text, table, paste, line, missing) is None,
    ensures
        line_patches(text, table, paste, line, columns) is None,
    decreases columns,
{
    if columns > missing + 1 {
        lemma_line_missing(text, table, paste, line, missing, columns - 1);
    }
}

proof fn lemma_cells_missing(
    text: Seq<char>,
    table: TableBlock,
    paste: GridPaste,
    missing: int,
    lines: int,
)
    requires
        0 <= missing < lines,
        line_patches(text, table, paste, missing, table.columns()) is None,
    ensures
        cell_patches(text, table, paste, lines) is None,
    decreases lines,
{
    if lines > missing + 1 {
        lemma_cells_missing(text, table, paste, missing, lines - 1);
    }
}

/// The cells of one new row, or `None` where a text cannot be quoted.
fn row_cells(paste: &GridPaste, row: usize, columns: usize) -> (r: Option<String>)
    requires
        paste.wf(),
    ensures
        match r {
            Some(made) => new_row_cells(*paste, row as int, columns as int) == Some(made@),
            None => new_row_cells(*paste, row as int, columns as int) is None,
        },
{
    let mut made = String::new();
    let mut column: usize = 0;
    while column < columns
        invariant
            paste.wf(),
            column <= columns,
            new_row_cells(*paste, row as int, column as int) == Some(made@),
        decreases columns - column,
    {
        match paste.slot_text_at(row, column) {
            Some(text) => {
                made.push_str(" ");
                made.push_str(text.as_str());
                made.push_str(" |");
            },
            None => {
                proof {
                    lemma_row_missing(*paste, row as int, column as int, columns as int);
                }
                return None;
            },
        }
        column += 1;
    }
    Some(made)
}

proof fn lemma_row_missing(paste: GridPaste, row: int, missing: int, columns: int)
    requires
        0 <= missing < columns,
        paste.slot_text(row, missing) is None,
    ensures
        new_row_cells(paste, row, columns) is None,
    decreases columns,
{
    if columns > missing + 1 {
        lemma_row_missing(paste, row, missing, columns - 1);
    }
}

proof fn lemma_rows_missing(
    paste: GridPaste,
    first: int,
    columns: int,
    eol: Seq<char>,
    prefix: Seq<char>,
    body: Seq<char>,
    missing: int,
    count: int,
)
    requires
        0 <= missing < count,
        new_row_cells(paste, first + missing, columns) is None,
    ensures
        with_new_rows(paste, first, columns, eol, prefix, body, count) is None,
    decreases count,
{
    if count > missing + 1 {
        lemma_rows_missing(paste, first, columns, eol, prefix, body, missing, count - 1);
    }
}

fn push_line(
    out: &mut String,
    eol: &str,
    prefix: &str,
    cells: &str,
    on_new_line: bool,
    closed: bool,
)
    ensures
        final(out)@ == old(out)@ + new_line(eol@, prefix@, cells@, on_new_line, closed),
{
    if !on_new_line {
        out.push_str(eol);
    }
    out.push_str(prefix);
    out.push_str("|");
    out.push_str(cells);
    if closed {
        out.push_str(eol);
    }
    assert(out@ =~= old(out)@ + new_line(eol@, prefix@, cells@, on_new_line, closed));
}

/// What the new rows add behind `body`, or `None` where a text cannot be quoted.
fn append_rows(
    paste: &GridPaste,
    rows: usize,
    row_count: usize,
    columns: usize,
    eol: &str,
    prefix: &str,
    body: &str,
) -> (r: Option<String>)
    requires
        paste.wf(),
        rows <= row_count,
    ensures
        ({
            let wanted = with_new_rows(
                *paste,
                rows as int,
                columns as int,
                eol@,
                prefix@,
                body@,
                row_count - rows,
            );
            match r {
                Some(added) => wanted == Some(body@ + added@),
                None => wanted is None,
            }
        }),
{
    let closed = ends_with_newline(body);
    let mut added = String::new();
    let mut row: usize = rows;
    assert(body@ + Seq::<char>::empty() =~= body@);
    while row < row_count
        invariant
            paste.wf(),
            rows <= row <= row_count,
            closed == ends_line(body@),
            with_new_rows(
                *paste,
                rows as int,
                columns as int,
                eol@,
                prefix@,
                body@,
                row - rows,
            ) == Some(body@ + added@),
        decreases row_count - row,
    {
        let cells = match row_cells(paste, row, columns) {
            Some(cells) => cells,
            None => {
                proof {
                    lemma_rows_missing(
                        *paste,
                        rows as int,
                        columns as int,
                        eol@,
                        prefix@,
                        body@,
                        row - rows,
                        row_count - rows,
                    );
                }
                return None;
            },
        };
        let ghost before = added@;
        let mut line_closed = ends_with_newline(added.as_str());
        if added.as_str().is_empty() {
            line_closed = closed;
        }
        proof {
            if before.len() > 0 {
                assert((body@ + before).last() == before.last());
            } else {
                assert(body@ + before =~= body@);
            }
            assert(line_closed == ends_line(body@ + before));
        }
        push_line(&mut added, eol, prefix, cells.as_str(), line_closed, closed);
        assert(body@ + added@ =~= (body@ + before) + new_line(
            eol@,
            prefix@,
            cells@,
            line_closed,
            closed,
        ));
        row += 1;
    }
    Some(added)
}

/// Drafts the paste. `None` where a text cannot be quoted.
pub fn table_grid_draft(source: &str, table: &TableBlock, paste: &GridPaste) -> (r: Option<
    TableGridDraft,
>)
    requires
        table.wf(source@),
        paste.wf(),
    ensures
        r is Some <==> pasted_source(source@, *table, *paste) is Some,
        r matches Some(draft) ==> {
            let edits = edit_views(draft.edits@);
            let start = table.source.start as int;
            let end = table.source.end as int;
            &&& draft.source@ == pasted_source(source@, *table, *paste)->0
            &&& draft.range.start.value == start
            &&& draft.range.end.value == end
            &&& ordered_edits(source@, edits)
            &&& edits_within(edits, start, end)
            &&& draft.source@ == rewritten(source@, start, end, edits)
        },
{
    assert(table.line_wf(source@, 0));
    assert(table.line_wf(source@, 1));
    let mut edits = match cell_edits(source, table, paste) {
        Some(edits) => edits,
        None => {
            return None;
        },
    };
    let ghost cell_views = edit_views(edits@);
    proof {
        lemma_cell_patches(source@, *table, *paste, table.lines@.len() as int);
    }
    let start = table.source.start;
    let end = table.source.end;
    let body = rewrite(source, start, end, &edits);
    let rows: usize = table.visible_row_count();
    let columns: usize = table.column_count();
    let end_row: usize = paste.start.row + paste.height;
    let end_column: usize = paste.start.column + paste.width;
    let row_count: usize = if rows < end_row {
        end_row
    } else {
        rows
    };
    let column_count: usize = if columns < end_column {
        end_column
    } else {
        columns
    };
    let first = table.lines[1][0];
    assert(nested(source@, table.row_ranges@[1], first));
    let prefix = up_to_char(slice(source, table.row_ranges[1].start, first.start), '|');
    let eol = line_ending_of(slice(source, start, end));
    let added = match append_rows(
        paste,
        rows,
        row_count,
        column_count,
        eol,
        prefix.as_str(),
        body.as_str(),
    ) {
        Some(added) => added,
        None => {
            return None;
        },
    };
    let mut made = body;
    made.push_str(added.as_str());
    if !added.as_str().is_empty() {
        let last = Edit::replace(end, end, added);
        edits.push(last);
        proof {
            lemma_rewritten_push(source@, start as int, end as int, cell_views, added@);
            assert(edit_views(edits@) =~= cell_views.push(last@));
        }
    } else {
        assert(made@ =~= rewritten(source@, start as int, end as int, cell_views));
    }
    Some(
        TableGridDraft {
            range: TextRange {
                start: ByteOffset::new(start as u64),
                end: ByteOffset::new(end as u64),
            },
            source: made,
            edits,
        },
    )
}

/// A paste whose result was read back as a table: where the first and the last
/// filled cell stand in it.
#[derive(Debug)]
pub struct TableGridPlan {
    pub range: TextRange,
    pub source: String,
    pub edits: Vec<Edit>,
    pub anchor: usize,
    pub focus: usize,
}

/// Where cell `address` of the pasted table starts in the document, if the
/// table has it and the offset can be addressed.
pub open spec fn pasted_cell(parsed: TableBlock, address: TableCellAddress, start: int) -> Option<
    int,
> {
    match parsed.cell(address) {
        Some(cell) if cell.start + start <= usize::MAX => Some(cell.start + start),
        _ => None,
    }
}

/// The slot that takes the last pasted cell.
pub open spec fn last_slot(paste: GridPaste) -> TableCellAddress {
    TableCellAddress {
        row: (paste.start.row + paste.height - 1) as usize,
        column: (paste.start.column + paste.width - 1) as usize,
    }
}

/// Accepts a draft whose source, read back, is a table of the intended size.
/// `parsed` is the table that was found in the draft's source, if any.
pub fn accept_table_grid(
    draft: TableGridDraft,
    table: &TableBlock,
    paste: &GridPaste,
    parsed: Option<&TableBlock>,
) -> (r: Result<TableGridPlan, EditorDocumentError>)
    requires
        paste.wf(),
        table.lines@.len() >= 2,
        parsed matches Some(result) ==> result.wf(draft.source@),
    ensures
        ({
            let start = draft.range.start.value as int;
            let fits = match parsed {
                Some(result) => {
                    &&& result.columns() == grown_columns(*table, *paste)
                    &&& result.visible_rows() == grown_rows(*table, *paste)
                    &&& pasted_cell(*result, paste.start, start) is Some
                    &&& pasted_cell(*result, last_slot(*paste), start) is Some
                },
                None => false,
            };
            &&& r is Ok <==> fits
            &&& r matches Err(e) ==> e == EditorDocumentError::InvalidTablePaste
            &&& r matches Ok(plan) ==> {
                &&& plan.range == draft.range
                &&& plan.source == draft.source
                &&& plan.edits == draft.edits
                &&& Some(plan.anchor as int) == pasted_cell(*parsed->0, paste.start, start)
                &&& Some(plan.focus as int) == pasted_cell(*parsed->0, last_slot(*paste), start)
            }
        }),
{
    let result = match parsed {
        Some(result) => result,
        None => {
            return Err(EditorDocumentError::InvalidTablePaste);
        },
    };
    let end_row: usize = paste.start.row + paste.height;
    let end_column: usize = paste.start.column + paste.width;
    let rows: usize = table.visible_row_count();
    let columns: usize = table.column_count();
    let row_count: usize = if rows < end_row {
        end_row
    } else {
        rows
    };
    let column_count: usize = if columns < end_column {
        end_column
    } else {
        columns
    };
    if result.column_count() != column_count || result.visible_row_count() != row_count {
        return Err(EditorDocumentError::InvalidTablePaste);
    }
    let start = draft.range.start.value;
    let first = cell_offset(result, paste.start, start);
    let last = cell_offset(
        result,
        TableCellAddress::new(end_row - 1, end_column - 1),
        start,
    );
    match (first, last) {
        (Some(anchor), Some(focus)) => Ok(
            TableGridPlan {
                range: draft.range,
                source: draft.source,
                edits: draft.edits,
                anchor,
                focus,
            },
        ),
        _ => Err(EditorDocumentError::InvalidTablePaste),
    }
}

fn cell_offset(parsed: &TableBlock, address: TableCellAddress, start: u64) -> (r: Option<usize>)
    requires
        exists|text: Seq<char>| parsed.wf(text),
    ensures
        match r {
            Some(offset) => pasted_cell(*parsed, address, start as int) == Some(offset as int),
            None => pasted_cell(*parsed, address, start as int) is None,
        },
{
    match parsed.visible_cell(address) {
        Some(cell) => if start <= (usize::MAX - cell.start) as u64 {
            Some(cell.start + start as usize)
        } else {
            None
        },
        None => None,
    }
}

/// Whether a grid paste can start: the cells form a grid without line breaks,
/// and the selection is one range inside one cell or a rectangle of cells.
pub open spec fn pasteable(
    table: TableBlock,
    selections: Selections,
    start: Option<TableCellAddress>,
    columns: usize,
    cells: Seq<CellInput>,
) -> bool {
    let count = cells.len() as int;
    let width = paste_width(columns as int, count, selections.columns());
    let height = paste_height(
        columns as int,
        count,
        selections.columns(),
        selections.ranges@.len() as int,
    );
    &&& columns > 0
    &&& count > 0
    &&& count % (columns as int) == 0
    &&& selections.ranges@.len() == 1 || selections.columns() is Some
    &&& forall|i: int| 0 <= i < cells.len() ==> !breaks_line((#[trigger] cells[i]).text@)
    &&& start matches Some(address) && {
        &&& table.cell(address) is Some
        &&& selections.ranges@[0].ordered().end.value <= table.cell(address)->0.end
        &&& address.row + height <= usize::MAX
        &&& address.column + width <= usize::MAX
    }
}

/// Starts a grid paste at the cell `start` that holds the first selection.
/// A selected rectangle of a pipe table, which has no merged cells, holds at
/// least one range per column.
pub fn begin_table_grid(
    source: &str,
    table: &TableBlock,
    selections: &Selections,
    start: Option<TableCellAddress>,
    columns: usize,
    cells: Vec<CellInput>,
    blank: Option<String>,
    dashes: Option<String>,
) -> (r: Result<GridPaste, EditorDocumentError>)
    requires
        table.wf(source@),
        selections.wf(source@),
        selections.columns() matches Some(width) ==> width <= selections.ranges@.len(),
    ensures
        r is Ok <==> pasteable(*table, *selections, start, columns, cells@),
        r matches Err(e) ==> e == EditorDocumentError::InvalidTablePaste,
        r matches Ok(paste) ==> {
            &&& paste.wf()
            &&& Some(paste.start) == start
            &&& paste.columns == columns
            &&& paste.width == paste_width(
                columns as int,
                cells@.len() as int,
                selections.columns(),
            )
            &&& paste.height == paste_height(
                columns as int,
                cells@.len() as int,
                selections.columns(),
                selections.ranges@.len() as int,
            )
            &&& paste.fill == (cells@.len() == 1 && selections.columns() is Some)
            &&& paste.cells == cells
            &&& paste.blank == blank
            &&& paste.dashes == dashes
        },
{
    if selections.is_multiple() && selections.table_columns().is_none() {
        return Err(EditorDocumentError::InvalidTablePaste);
    }
    let address = match start {
        Some(address) => address,
        None => {
            return Err(EditorDocumentError::InvalidTablePaste);
        },
    };
    let owner = match table.visible_cell(address) {
        Some(owner) => owner,
        None => {
            return Err(EditorDocumentError::InvalidTablePaste);
        },
    };
    if selections.ranges[0].ordered_range().end.value > owner.end as u64 {
        return Err(EditorDocumentError::InvalidTablePaste);
    }
    match GridPaste::new(
        address,
        columns,
        cells,
        selections.table_columns(),
        selections.len(),
        blank,
        dashes,
    ) {
        Some(paste) => Ok(paste),
        None => Err(EditorDocumentError::InvalidTablePaste),
    }
}

/// Drafts the paste, or refuses it where a text cannot be quoted.
pub fn table_grid_plan(source: &str, table: &TableBlock, paste: &GridPaste) -> (r: Result<
    TableGridDraft,
    EditorDocumentError,
>)
    requires
        table.wf(source@),
        paste.wf(),
    ensures
        r is Ok <==> pasted_source(source@, *table, *paste) is Some,
        r matches Err(e) ==> e == EditorDocumentError::InvalidTablePaste,
        r matches Ok(draft) ==> {
            let edits = edit_views(draft.edits@);
            let start = table.source.start as int;
            let end = table.source.end as int;
            &&& draft.source@ == pasted_source(source@, *table, *paste)->0
            &&& draft.range.start.value == start
            &&& draft.range.end.value == end
            &&& ordered_edits(source@, edits)
            &&& edits_within(edits, start, end)
            &&& draft.source@ == rewritten(source@, start, end, edits)
        },
{
    match table_grid_draft(source, table, paste) {
        Some(draft) => Ok(draft),
        None => Err(EditorDocumentError::InvalidTablePaste),
    }
}

/// The quoted cells of one row of a new table.
pub open spec fn serialized_cells(cells: Seq<CellInput>, first: int, end: int) -> Seq<char>
    decreases end - first,
{
    if end <= first {
        Seq::empty()
    } else {
        serialized_cells(cells, first, end - 1) + " "@ + quoted_view(cells[end - 1].quoted)->0
            + " |"@
    }
}

/// The first `rows` rows of a new table. The delimiter line follows the first.
pub open spec fn serialized_rows(cells: Seq<CellInput>, columns: int, rows: int) -> Seq<char>
    decreases rows,
{
    if rows <= 0 {
        Seq::empty()
    } else {
        serialized_rows(cells, columns, rows - 1) + (if rows == 1 {
            Seq::empty()
        } else {
            "\n"@
        }) + "|"@ + serialized_cells(cells, (rows - 1) * columns, rows * columns) + (if rows == 1 {
            "\n|"@ + repeated(" --- |"@, columns as nat)
        } else {
            Seq::empty()
        })
    }
}

/// Whether the cells can be written as a table of their own.
pub open spec fn serializable(columns: usize, cells: Seq<CellInput>) -> bool {
    &&& columns > 0
    &&& cells.len() > 0
    &&& cells.len() % (columns as nat) == 0
    &&& forall|i: int|
        0 <= i < cells.len() ==> !breaks_line((#[trigger] cells[i]).text@) && cells[i].quoted is Some
}

/// Writes a grid as a pipe table whose header is the grid's first row.
pub fn serialize_grid(columns: usize, cells: &Vec<CellInput>) -> (r: Result<
    String,
    EditorDocumentError,
>)
    ensures
        r is Ok <==> serializable(columns, cells@),
        r matches Err(e) ==> e == EditorDocumentError::InvalidTablePaste,
        r matches Ok(source) ==> source@ == serialized_rows(
            cells@,
            columns as int,
            cells@.len() as int / columns as int,
        ),
{
    if columns == 0 || cells.len() == 0 || cells.len() % columns != 0 {
        return Err(EditorDocumentError::InvalidTablePaste);
    }
    let mut i: usize = 0;
    while i < cells.len()
        invariant
            i <= cells@.len(),
            forall|k: int|
                0 <= k < i ==> !breaks_line((#[trigger] cells@[k]).text@) && cells@[k].quoted
                    is Some,
        decreases cells@.len() - i,
    {
        let text = cells[i].text.as_str();
        if contains_char(text, '\n') || contains_char(text, '\r') || cells[i].quoted.is_none() {
            assert(!(!breaks_line(cells@[i as int].text@) && cells@[i as int].quoted is Some));
            return Err(EditorDocumentError::InvalidTablePaste);
        }
        i += 1;
    }
    let rows: usize = cells.len() / columns;
    proof {
        vstd::arithmetic::div_mod::lemma_fundamental_div_mod(cells@.len() as int, columns as int);
        assert(columns * rows == rows * columns) by (nonlinear_arith);
        assert(cells@.len() == cells.len());
        assert(0 * columns == 0) by (nonlinear_arith);
    }
    let mut source = String::new();
    let mut row: usize = 0;
    let mut next: usize = 0;
    while row < rows
        invariant
            columns > 0,
            rows * columns == cells@.len(),
            row <= rows,
            next == row * columns,
            forall|k: int| 0 <= k < cells@.len() ==> (#[trigger] cells@[k]).quoted is Some,
            source@ == serialized_rows(cells@, columns as int, row as int),
        decreases rows - row,
    {
        let ghost before = source@;
        if row > 0 {
            source.push_str("\n");
        }
        source.push_str("|");
        let ghost head = source@;
        let first = next;
        proof {
            assert(row * columns + columns == (row + 1) * columns) by (nonlinear_arith);
            assert((row + 1) * columns <= rows * columns) by (nonlinear_arith)
                requires
                    row < rows,
                    0 <= columns,
            ;
            assert(cells@.len() == cells.len());
            assert(head + Seq::<char>::empty() =~= head);
        }
        let end: usize = first + columns;
        while next < end
            invariant
                first <= next <= end <= cells@.len(),
                forall|k: int| 0 <= k < cells@.len() ==> (#[trigger] cells@[k]).quoted is Some,
                source@ == head + serialized_cells(cells@, first as int, next as int),
            decreases end - next,
        {
            source.push_str(" ");
            if let Some(text) = &cells[next].quoted {
                source.push_str(text.as_str());
            }
            source.push_str(" |");
            assert(source@ =~= head + serialized_cells(cells@, first as int, next + 1));
            next += 1;
        }
        if row == 0 {
            source.push_str("\n|");
            push_repeated(&mut source, " --- |", columns);
        }
        assert(source@ =~= serialized_rows(cells@, columns as int, row + 1));
        row += 1;
    }
    Ok(source)
}

/// Texts one after the other, with a gap between each two.
pub open spec fn woven(texts: Seq<Seq<char>>, gaps: Seq<Seq<char>>) -> Seq<char>
    decreases texts.len(),
{
    if texts.len() == 0 {
        Seq::empty()
    } else if texts.len() == 1 {
        texts[0]
    } else {
        woven(texts.drop_last(), gaps) + gaps[texts.len() - 2] + texts.last()
    }
}

/// The row of a line: the header is row zero, and no cell is pasted into the delimiter line.
pub open spec fn row_number(line: int) -> int {
    if line == 0 {
        0
    } else {
        line - 1
    }
}

/// Whether a slot of the table after the paste takes a pasted cell.
pub open spec fn takes_cell(paste: GridPaste, line: int, column: int) -> bool {
    &&& line != 1
    &&& paste.start.row <= row_number(line) < paste.start.row + paste.height
    &&& paste.start.column <= column < paste.start.column + paste.width
}

/// The pasted cell that a slot takes: cells go row by row, and a single cell that fills a
/// rectangle goes into every slot of it.
pub open spec fn taken_cell(paste: GridPaste, line: int, column: int) -> int {
    if paste.fill {
        0
    } else {
        (row_number(line) - paste.start.row) * paste.columns + (column - paste.start.column)
    }
}

/// Whether `made` may stand in a slot after the paste: a pasted cell, quoted, in the filled
/// rectangle; elsewhere the table's own text, and in what was added nothing, or dashes in the
/// delimiter line.
pub open spec fn slot_holds(
    text: Seq<char>,
    table: TableBlock,
    paste: GridPaste,
    line: int,
    column: int,
    made: Seq<char>,
) -> bool {
    let own = line < table.lines@.len() && column < table.lines@[1]@.len();
    let cell = table.lines@[line]@[column];
    let input = paste.cells@[taken_cell(paste, line, column)];
    if takes_cell(paste, line, column) {
        // A text that a pipe follows at once is quoted for that.
        if own && pipe_at(text, cell.end as int) && (column + 1 < table.lines@[1]@.len()
            || paste.start.column + paste.width <= table.lines@[1]@.len()) {
            input.quoted_before_pipe matches Some(quoted) && quoted@ == made
        } else {
            input.quoted matches Some(quoted) && quoted@ == made
        }
    } else if own {
        made == span(text, cell.start as int, cell.end as int)
    } else if line == 1 {
        paste.dashes matches Some(dashes) && dashes@ == made
    } else {
        paste.blank matches Some(blank) && blank@ == made
    }
}

/// What stands between the cells of a line: what stood there before, and a pipe between
/// blanks before each new column.
pub open spec fn cell_gaps(text: Seq<char>, table: TableBlock, line: int, columns: int) -> Seq<
    Seq<char>,
> {
    let cells = table.lines@[line]@;
    Seq::new(
        (columns - 1) as nat,
        |c: int|
            if c + 1 < cells.len() {
                span(text, cells[c].end as int, cells[c + 1].start as int)
            } else {
                seq![' ', '|', ' ']
            },
    )
}

/// A line of the table with `texts` in its cells. What stands before the first cell and
/// behind the last one stays, and a line with new columns that had no pipe there gets one.
pub open spec fn line_of_cells(
    text: Seq<char>,
    table: TableBlock,
    line: int,
    texts: Seq<Seq<char>>,
) -> Seq<char> {
    let cells = table.lines@[line]@;
    let physical = table.row_ranges@[line];
    let behind = span(text, cells.last().end as int, physical.end as int);
    span(text, physical.start as int, cells[0].start as int) + woven(
        texts,
        cell_gaps(text, table, line, texts.len() as int),
    ) + (if texts.len() > cells.len() && !behind.contains('|') {
        seq![' ', '|']
    } else {
        Seq::empty()
    }) + behind
}

/// What stands between the lines of the table.
pub open spec fn line_gaps(text: Seq<char>, table: TableBlock) -> Seq<Seq<char>> {
    Seq::new(
        (table.row_ranges@.len() - 1) as nat,
        |l: int|
            span(text, table.row_ranges@[l].end as int, table.row_ranges@[l + 1].start as int),
    )
}

/// The table's own lines with `texts` in their cells.
pub open spec fn own_lines(text: Seq<char>, table: TableBlock, texts: Seq<Seq<Seq<char>>>) -> Seq<
    char,
> {
    let ranges = table.row_ranges@;
    span(text, table.source.start as int, ranges[0].start as int) + woven(
        Seq::new(ranges.len(), |l: int| line_of_cells(text, table, l, texts[l])),
        line_gaps(text, table),
    ) + span(text, ranges.last().end as int, table.source.end as int)
}

/// The table `body` with `count` more lines behind it, whose cells hold the texts from
/// `first` on. Each stands on a line of its own, with pipes around all of its cells.
pub open spec fn more_lines(
    body: Seq<char>,
    texts: Seq<Seq<Seq<char>>>,
    first: int,
    ending: Seq<char>,
    prefix: Seq<char>,
    count: int,
) -> Seq<char>
    decreases count,
{
    if count <= 0 {
        body
    } else {
        let before = more_lines(body, texts, first, ending, prefix, count - 1);
        let cells = texts[first + count - 1];
        let bars = Seq::new((cells.len() - 1) as nat, |c: int| seq![' ', '|', ' ']);
        before + (if before.len() > 0 && before.last() == '\n' {
            Seq::empty()
        } else {
            ending
        }) + prefix + seq!['|', ' '] + woven(cells, bars) + seq![' ', '|'] + (if body.len() > 0
            && body.last() == '\n' {
            ending
        } else {
            Seq::empty()
        })
    }
}

/// What the paste puts into a slot.
spec fn slot_after(
    text: Seq<char>,
    table: TableBlock,
    paste: GridPaste,
    line: int,
    column: int,
) -> Seq<char> {
    if line < table.lines@.len() && column < table.columns() {
        cell_text(text, table, paste, line, column)->0
    } else if line < table.lines@.len() {
        new_column_text(paste, line, column)->0
    } else {
        paste.slot_text(visible_row(line), column)->0
    }
}

spec fn slots_of_line(text: Seq<char>, table: TableBlock, paste: GridPaste, line: int) -> Seq<
    Seq<char>,
> {
    Seq::new(
        grown_columns(table, paste) as nat,
        |c: int| slot_after(text, table, paste, line, c),
    )
}

/// One more text behind the others.
pub proof fn lemma_woven_push(texts: Seq<Seq<char>>, gaps: Seq<Seq<char>>, n: int)
    requires
        1 < n <= texts.len(),
    ensures
        woven(texts.take(n), gaps) == woven(texts.take(n - 1), gaps) + gaps[n - 2] + texts[n - 1],
{
    assert(texts.take(n).drop_last() =~= texts.take(n - 1));
    assert(texts.take(n).last() == texts[n - 1]);
}

/// The gaps behind the last text do not count.
pub proof fn lemma_woven_gaps(texts: Seq<Seq<char>>, gaps: Seq<Seq<char>>, others: Seq<Seq<char>>)
    requires
        forall|c: int| 0 <= c < texts.len() - 1 ==> #[trigger] gaps[c] == others[c],
    ensures
        woven(texts, gaps) == woven(texts, others),
    decreases texts.len(),
{
    if texts.len() > 1 {
        lemma_woven_gaps(texts.drop_last(), gaps, others);
        assert(gaps[texts.len() - 2] == others[texts.len() - 2]);
    }
}

/// What the paste writes over a cell, or the cell's own text.
spec fn written(
    text: Seq<char>,
    table: TableBlock,
    paste: GridPaste,
    line: int,
    column: int,
) -> Seq<char> {
    let cell = table.lines@[line]@[column];
    if patched(table, paste, line, column) {
        patch_text(text, table, paste, line, column)->0
    } else {
        span(text, cell.start as int, cell.end as int)
    }
}

spec fn written_cells(text: Seq<char>, table: TableBlock, paste: GridPaste, line: int) -> Seq<
    Seq<char>,
> {
    Seq::new(table.columns() as nat, |c: int| written(text, table, paste, line, c))
}

/// A line up to the end of a cell, once the cells up to there are written over.
proof fn lemma_line_written(
    text: Seq<char>,
    table: TableBlock,
    paste: GridPaste,
    line: int,
    columns: int,
)
    requires
        table.wf(text),
        0 <= line < table.lines@.len(),
        0 < columns <= table.columns(),
        line_patches(text, table, paste, line, columns) is Some,
    ensures
        ({
            let cells = table.lines@[line]@;
            let start = table.row_ranges@[line].start as int;
            let end = cells[columns - 1].end as int;
            let edits = line_patches(text, table, paste, line, columns)->0;
            let gaps = cell_gaps(text, table, line, table.columns());
            &&& ordered_edits(text, edits)
            &&& edits_within(edits, start, end)
            &&& rewritten(text, start, end, edits) == span(text, start, cells[0].start as int)
                + woven(written_cells(text, table, paste, line).take(columns), gaps)
        }),
    decreases columns,
{
    let cells = table.lines@[line]@;
    let start = table.row_ranges@[line].start as int;
    let cell = cells[columns - 1];
    let end = cell.end as int;
    let edits = line_patches(text, table, paste, line, columns)->0;
    let gaps = cell_gaps(text, table, line, table.columns());
    let all = written_cells(text, table, paste, line);
    let made = all[columns - 1];
    assert(table.line_wf(text, line));
    assert(nested(text, table.row_ranges@[line], cell));
    assert(nested(text, table.row_ranges@[line], cells[0]));
    let before = line_patches(text, table, paste, line, columns - 1)->0;
    assert(line_patches(text, table, paste, line, columns - 1) is Some);
    let right = if edits == before {
        Seq::<EditView>::empty()
    } else {
        seq![EditView { start: cell.start as int, end, text: made }]
    };
    assert(edits =~= before + right) by {
        if edits == before {
            assert(before + right =~= before);
        } else {
            assert(before.push(right[0]) =~= before + right);
        }
    }
    lemma_line_patches(text, table, paste, line, columns);
    crate::text::lemma_span_empty(text, end);
    if columns == 1 {
        assert(before =~= Seq::empty());
        assert(edits =~= right);
        assert(all.take(1).len() == 1 && all.take(1)[0] == made);
        crate::text::lemma_span_join(text, start, cell.start as int, end);
        lemma_one_cell(text, start, cell.start as int, end, right, made, edits == before);
    } else {
        lemma_line_written(text, table, paste, line, columns - 1);
        let middle = cells[columns - 2].end as int;
        assert(nested(text, table.row_ranges@[line], cells[columns - 2]));
        assert(cells[columns - 2].end <= cell.start);
        lemma_rewritten_split(text, start, middle, end, before, right);
        crate::text::lemma_span_join(text, middle, cell.start as int, end);
        lemma_one_cell(text, middle, cell.start as int, end, right, made, edits == before);
        lemma_woven_push(all, gaps, columns);
        let head = span(text, start, cells[0].start as int);
        let part = woven(all.take(columns - 1), gaps);
        assert(head + part + (gaps[columns - 2] + made) =~= head + (part + gaps[columns - 2]
            + made));
    }
}

/// A gap and a cell behind it, once the cell is written over.
proof fn lemma_one_cell(
    text: Seq<char>,
    from: int,
    start: int,
    end: int,
    edits: Seq<EditView>,
    made: Seq<char>,
    same: bool,
)
    requires
        sliceable(text, from, start),
        sliceable(text, start, end),
        same ==> edits.len() == 0 && made == span(text, start, end),
        !same ==> edits == seq![EditView { start, end, text: made }],
    ensures
        rewritten(text, from, end, edits) == span(text, from, start) + made,
{
    if same {
        crate::text::lemma_span_join(text, from, start, end);
    } else {
        crate::text::lemma_span_empty(text, end);
        assert(edits.drop_first() =~= Seq::<EditView>::empty());
        assert(rewritten(text, end, end, edits.drop_first()) == span(text, end, end));
        assert(rewritten(text, from, end, edits) =~= span(text, from, start) + made);
    }
}

/// New columns are written one behind the other.
proof fn lemma_new_columns_woven(
    text: Seq<char>,
    table: TableBlock,
    paste: GridPaste,
    line: int,
    end: int,
)
    requires
        table.wf(text),
        0 <= line < table.lines@.len(),
        table.columns() <= end <= grown_columns(table, paste),
        new_columns(paste, line, table.columns(), end) is Some,
    ensures
        ({
            let slots = slots_of_line(text, table, paste, line);
            let gaps = cell_gaps(text, table, line, grown_columns(table, paste));
            &&& woven(slots.take(end), gaps) == woven(slots.take(table.columns()), gaps)
                + new_columns(paste, line, table.columns(), end)->0
            &&& forall|c: int|
                table.columns() <= c < end ==> (#[trigger] new_column_text(paste, line, c)) is Some
        }),
    decreases end,
{
    let slots = slots_of_line(text, table, paste, line);
    let gaps = cell_gaps(text, table, line, grown_columns(table, paste));
    assert(table.line_wf(text, line));
    if end > table.columns() {
        lemma_new_columns_woven(text, table, paste, line, end - 1);
        lemma_woven_push(slots, gaps, end);
        reveal_strlit(" | ");
        assert(" | "@ =~= seq![' ', '|', ' ']);
        assert(gaps[end - 2] == " | "@);
        let base = woven(slots.take(table.columns()), gaps);
        let added = new_columns(paste, line, table.columns(), end - 1)->0;
        assert(base + added + gaps[end - 2] + slots[end - 1] =~= base + (added + " | "@
            + slots[end - 1]));
    } else {
        let base = woven(slots.take(table.columns()), gaps);
        assert(base + Seq::<char>::empty() =~= base);
    }
}

/// A whole line, once it is written over.
proof fn lemma_line_is_woven(text: Seq<char>, table: TableBlock, paste: GridPaste, line: int)
    requires
        table.wf(text),
        paste.wf(),
        0 <= line < table.lines@.len(),
        line_patches(text, table, paste, line, table.columns()) is Some,
    ensures
        ({
            let range = table.row_ranges@[line];
            let edits = line_patches(text, table, paste, line, table.columns())->0;
            let slots = slots_of_line(text, table, paste, line);
            &&& rewritten(text, range.start as int, range.end as int, edits) == line_of_cells(
                text,
                table,
                line,
                slots,
            )
            &&& ordered_edits(text, edits)
            &&& edits_within(edits, range.start as int, range.end as int)
            &&& forall|c: int|
                0 <= c < grown_columns(table, paste) ==> slot_holds(
                    text,
                    table,
                    paste,
                    line,
                    c,
                    #[trigger] slots[c],
                )
        }),
{
    let cells = table.lines@[line]@;
    let columns = table.columns();
    let grown = grown_columns(table, paste);
    let range = table.row_ranges@[line];
    let start = range.start as int;
    let last = cells[columns - 1];
    let edits = line_patches(text, table, paste, line, columns)->0;
    let gaps = cell_gaps(text, table, line, columns);
    let wide = cell_gaps(text, table, line, grown);
    let slots = slots_of_line(text, table, paste, line);
    let all = written_cells(text, table, paste, line);
    assert(table.line_wf(text, line));
    assert(nested(text, range, last));
    assert(nested(text, range, cells[0]));
    assert(cells.last() == last);
    lemma_line_written(text, table, paste, line, columns);
    lemma_line_patches(text, table, paste, line, columns);
    assert(all.take(columns) =~= all);
    assert forall|c: int| 0 <= c < columns implies (
    #[trigger] cell_text(text, table, paste, line, c)) is Some by {
        if patched(table, paste, line, c) && patch_text(text, table, paste, line, c) is None {
            lemma_line_missing(text, table, paste, line, c, columns);
        }
    }
    assert forall|c: int| 0 <= c < columns && (c + 1 < columns || grown == columns) implies all[c]
        == #[trigger] slots[c] by {
        assert(cell_text(text, table, paste, line, c) is Some);
    }
    let behind = span(text, last.end as int, range.end as int);
    let head = span(text, start, cells[0].start as int);
    lemma_rewritten_split(text, start, last.end as int, range.end as int, edits, Seq::empty());
    assert(edits + Seq::<EditView>::empty() =~= edits);
    assert(rewritten(text, last.end as int, range.end as int, Seq::empty()) == behind);
    reveal_strlit(" |");
    assert(" |"@ =~= seq![' ', '|']);
    let none = Seq::<char>::empty();
    if grown == columns {
        assert(all =~= slots);
        assert(head + woven(slots, gaps) + none =~= head + woven(slots, gaps));
    } else {
        assert(patched(table, paste, line, columns - 1));
        if patch_text(text, table, paste, line, columns - 1) is None {
            lemma_line_missing(text, table, paste, line, columns - 1, columns);
        }
        let own = cell_text(text, table, paste, line, columns - 1)->0;
        let added = new_columns(paste, line, columns, grown)->0;
        let closing = if closes_with_pipe(text, table, line) {
            none
        } else {
            seq![' ', '|']
        };
        assert(all[columns - 1] == own + added + closing);
        lemma_new_columns_woven(text, table, paste, line, grown);
        assert(slots.take(grown) =~= slots);
        let short = slots.take(columns);
        assert(short[columns - 1] == own);
        assert(short.drop_last() =~= all.drop_last()) by {
            assert forall|c: int| 0 <= c < columns - 1 implies all[c] == #[trigger] short[c] by {
                assert(all[c] == slots[c]);
            }
        }
        lemma_woven_gaps(all.drop_last(), gaps, wide);
        assert(woven(all, gaps) =~= woven(short, wide) + added + closing) by {
            if columns == 1 {
                assert(woven(all, gaps) == all[0]);
                assert(woven(short, wide) == short[0]);
            } else {
                let part = woven(all.drop_last(), gaps);
                assert(gaps[columns - 2] == wide[columns - 2]);
                assert(woven(all, gaps) == part + gaps[columns - 2] + all[columns - 1]);
                assert(woven(short, wide) == part + wide[columns - 2] + own);
            }
        }
        assert(woven(slots, wide) == woven(short, wide) + added);
        assert(closing == if !behind.contains('|') {
            seq![' ', '|']
        } else {
            none
        });
        assert(head + (woven(short, wide) + added + closing) =~= head + (woven(short, wide)
            + added) + closing);
    }
    assert forall|c: int| 0 <= c < grown implies slot_holds(
        text,
        table,
        paste,
        line,
        c,
        #[trigger] slots[c],
    ) by {
        if c < columns {
            assert(cell_text(text, table, paste, line, c) is Some);
        } else {
            assert(new_column_text(paste, line, c) is Some);
        }
    }
}

/// The table's lines up to one, once they are written over.
proof fn lemma_lines_are_woven(text: Seq<char>, table: TableBlock, paste: GridPaste, lines: int)
    requires
        table.wf(text),
        paste.wf(),
        0 < lines <= table.lines@.len(),
        cell_patches(text, table, paste, lines) is Some,
    ensures
        ({
            let start = table.source.start as int;
            let ranges = table.row_ranges@;
            let end = ranges[lines - 1].end as int;
            let edits = cell_patches(text, table, paste, lines)->0;
            let made = Seq::new(
                ranges.len(),
                |l: int|
                    line_of_cells(text, table, l, slots_of_line(text, table, paste, l)),
            );
            &&& ordered_edits(text, edits)
            &&& edits_within(edits, start, end)
            &&& rewritten(text, start, end, edits) == span(text, start, ranges[0].start as int)
                + woven(made.take(lines), line_gaps(text, table))
            &&& forall|l: int, c: int|
                0 <= l < lines && 0 <= c < grown_columns(table, paste) ==> slot_holds(
                    text,
                    table,
                    paste,
                    l,
                    c,
                    #[trigger] slots_of_line(text, table, paste, l)[c],
                )
        }),
    decreases lines,
{
    let start = table.source.start as int;
    let ranges = table.row_ranges@;
    let range = ranges[lines - 1];
    let end = range.end as int;
    let edits = cell_patches(text, table, paste, lines)->0;
    let before = cell_patches(text, table, paste, lines - 1)->0;
    let here = line_patches(text, table, paste, lines - 1, table.columns())->0;
    let made = Seq::new(
        ranges.len(),
        |l: int| line_of_cells(text, table, l, slots_of_line(text, table, paste, l)),
    );
    let gaps = line_gaps(text, table);
    assert(table.line_wf(text, lines - 1));
    assert(table.line_wf(text, 0));
    lemma_line_is_woven(text, table, paste, lines - 1);
    lemma_cell_patches(text, table, paste, lines);
    let empty = Seq::<EditView>::empty();
    if lines == 1 {
        assert(before =~= empty);
        assert(edits =~= empty + here);
        lemma_rewritten_split(text, start, range.start as int, end, empty, here);
        assert(rewritten(text, start, range.start as int, empty) == span(
            text,
            start,
            range.start as int,
        ));
        assert(made.take(1).len() == 1 && made.take(1)[0] == made[0]);
    } else {
        let middle = ranges[lines - 2].end as int;
        lemma_lines_are_woven(text, table, paste, lines - 1);
        assert(table.line_wf(text, lines - 2));
        assert(ranges[lines - 2].end <= range.start);
        assert(edits_within(here, middle, end));
        lemma_rewritten_split(text, start, middle, end, before, here);
        lemma_rewritten_split(text, middle, range.start as int, end, empty, here);
        assert(empty + here =~= here);
        assert(rewritten(text, middle, range.start as int, empty) == gaps[lines - 2]);
        lemma_woven_push(made, gaps, lines);
        let head = span(text, start, ranges[0].start as int);
        let part = woven(made.take(lines - 1), gaps);
        assert(head + part + (gaps[lines - 2] + made[lines - 1]) =~= head + (part + gaps[lines - 2]
            + made[lines - 1]));
    }
}

/// The cells of a new row, written one behind the other.
proof fn lemma_row_is_woven(paste: GridPaste, row: int, columns: int, cells: Seq<Seq<char>>)
    requires
        0 < columns <= cells.len(),
        new_row_cells(paste, row, columns) is Some,
        forall|c: int|
            0 <= c < cells.len() ==> #[trigger] cells[c] == paste.slot_text(row, c)->0,
    ensures
        ({
            let bars = Seq::new((cells.len() - 1) as nat, |c: int| seq![' ', '|', ' ']);
            &&& new_row_cells(paste, row, columns)->0 == seq![' '] + woven(
                cells.take(columns),
                bars,
            ) + seq![' ', '|']
            &&& forall|c: int| 0 <= c < columns ==> (#[trigger] paste.slot_text(row, c)) is Some
        }),
    decreases columns,
{
    reveal_strlit(" ");
    reveal_strlit(" |");
    let bars = Seq::new((cells.len() - 1) as nat, |c: int| seq![' ', '|', ' ']);
    let made = new_row_cells(paste, row, columns)->0;
    let before = new_row_cells(paste, row, columns - 1)->0;
    let cell = cells[columns - 1];
    assert(made == before + " "@ + cell + " |"@);
    if columns == 1 {
        assert(before =~= Seq::empty());
        assert(cells.take(1)[0] == cell);
        assert(made =~= seq![' '] + woven(cells.take(1), bars) + seq![' ', '|']);
    } else {
        lemma_row_is_woven(paste, row, columns - 1, cells);
        lemma_woven_push(cells, bars, columns);
        assert(bars[columns - 2] == seq![' ', '|', ' ']);
        assert(made =~= seq![' '] + woven(cells.take(columns), bars) + seq![' ', '|']);
    }
}

proof fn lemma_rows_are_woven(
    paste: GridPaste,
    first: int,
    columns: int,
    eol: Seq<char>,
    prefix: Seq<char>,
    body: Seq<char>,
    texts: Seq<Seq<Seq<char>>>,
    count: int,
)
    requires
        0 <= count,
        0 < columns,
        0 <= first,
        first + 1 + count <= texts.len(),
        with_new_rows(paste, first, columns, eol, prefix, body, count) is Some,
        forall|l: int|
            first + 1 <= l < first + 1 + count ==> (#[trigger] texts[l]).len() == columns && forall|
                c: int,
            |
                0 <= c < columns ==> #[trigger] texts[l][c] == paste.slot_text(l - 1, c)->0,
    ensures
        with_new_rows(paste, first, columns, eol, prefix, body, count)->0 == more_lines(
            body,
            texts,
            first + 1,
            eol,
            prefix,
            count,
        ),
        forall|l: int, c: int|
            first <= l < first + count && 0 <= c < columns ==> (
            #[trigger] paste.slot_text(l, c)) is Some,
    decreases count,
{
    if count > 0 {
        lemma_rows_are_woven(paste, first, columns, eol, prefix, body, texts, count - 1);
        let row = first + count - 1;
        let cells = texts[first + count];
        lemma_row_is_woven(paste, row, columns, cells);
        assert(cells.take(columns) =~= cells);
        reveal_strlit("|");
        let before = more_lines(body, texts, first + 1, eol, prefix, count - 1);
        assert(texts[first + 1 + count - 1] == cells);
        let bars = Seq::new((cells.len() - 1) as nat, |c: int| seq![' ', '|', ' ']);
        let inner = new_row_cells(paste, row, columns)->0;
        assert(with_new_rows(paste, first, columns, eol, prefix, body, count)->0 =~= more_lines(
            body,
            texts,
            first + 1,
            eol,
            prefix,
            count,
        ));
    }
}

/// The larger of two numbers.
pub open spec fn larger(a: int, b: int) -> int {
    if a < b {
        b
    } else {
        a
    }
}

/// Whether the table after a paste is laid out from `texts`, which holds the text of every
/// slot: line by line, the delimiter line second, with what was added behind what was there.
pub open spec fn laid_out(
    text: Seq<char>,
    table: TableBlock,
    paste: GridPaste,
    texts: Seq<Seq<Seq<char>>>,
    made: Seq<char>,
) -> bool {
    let lines = table.lines@.len() as int;
    let columns = table.lines@[1]@.len() as int;
    let width = larger(columns, paste.start.column + paste.width);
    let height = larger(lines, paste.start.row + paste.height + 1);
    let delimiters = span(
        text,
        table.row_ranges@[1].start as int,
        table.lines@[1]@[0].start as int,
    );
    &&& texts.len() == height
    &&& forall|l: int| 0 <= l < height ==> (#[trigger] texts[l]).len() == width
    &&& forall|l: int, c: int|
        0 <= l < height && 0 <= c < width ==> slot_holds(
            text,
            table,
            paste,
            l,
            c,
            #[trigger] texts[l][c],
        )
    &&& exists|ending: Seq<char>, prefix: Seq<char>|
        {
            &&& has_crlf(span(text, table.source.start as int, table.source.end as int)) ==> ending
                == seq!['\r', '\n']
            &&& !has_crlf(span(text, table.source.start as int, table.source.end as int))
                ==> ending == seq!['\n']
            &&& prefix.is_prefix_of(delimiters)
            &&& !prefix.contains('|')
            &&& prefix.len() < delimiters.len() ==> delimiters[prefix.len() as int] == '|'
            &&& made == #[trigger] more_lines(
                own_lines(text, table, texts),
                texts,
                lines,
                ending,
                prefix,
                height - lines,
            )
        }
}

/// Every slot of the table after a paste holds what belongs there, counted along its line.
/// Pasted cells go row by row from the first slot on, into the table's own columns and rows
/// and into new ones alike, so that of two new columns the left one is written first; all
/// other slots keep their text, and what is added besides is empty.
pub proof fn law_pasted_cells_stand_in_their_slots(
    text: Seq<char>,
    table: TableBlock,
    paste: GridPaste,
)
    requires
        table.wf(text),
        paste.wf(),
        pasted_source(text, table, paste) is Some,
    ensures
        exists|texts: Seq<Seq<Seq<char>>>| #[trigger]
            laid_out(text, table, paste, texts, pasted_source(text, table, paste)->0),
{
    let lines = table.lines@.len() as int;
    let columns = table.columns();
    let width = grown_columns(table, paste);
    let height = grown_rows(table, paste) + 1;
    let start = table.source.start as int;
    let end = table.source.end as int;
    let ranges = table.row_ranges@;
    let texts = Seq::new(height as nat, |l: int| slots_of_line(text, table, paste, l));
    let edits = cell_patches(text, table, paste, lines)->0;
    let eol = line_ending(span(text, start, end));
    let prefix = row_prefix(text, table);
    let made = pasted_source(text, table, paste)->0;
    assert(table.line_wf(text, lines - 1));
    assert(table.line_wf(text, 0));
    lemma_lines_are_woven(text, table, paste, lines);
    let body = rewritten(text, start, end, edits);
    let reached = ranges[lines - 1].end as int;
    lemma_rewritten_split(text, start, reached, end, edits, Seq::empty());
    assert(edits + Seq::<EditView>::empty() =~= edits);
    assert(rewritten(text, reached, end, Seq::empty()) == span(text, reached, end));
    let written = Seq::new(
        ranges.len(),
        |l: int| line_of_cells(text, table, l, slots_of_line(text, table, paste, l)),
    );
    assert(written.take(lines) =~= written);
    assert(Seq::new(ranges.len(), |l: int| line_of_cells(text, table, l, texts[l])) =~= written);
    assert(body == own_lines(text, table, texts));
    assert forall|l: int| lines <= l < height implies (#[trigger] texts[l]).len() == width
        && forall|c: int| 0 <= c < width ==> #[trigger] texts[l][c] == paste.slot_text(l - 1, c)->0 by {}
    lemma_rows_are_woven(
        paste,
        lines - 1,
        width,
        eol,
        prefix,
        body,
        texts,
        height - lines,
    );
    reveal_strlit("\n");
    reveal_strlit("\r\n");
    assert("\n"@ =~= seq!['\n']);
    assert("\r\n"@ =~= seq!['\r', '\n']);
    let delimiters = span(text, ranges[1].start as int, table.lines@[1]@[0].start as int);
    lemma_before_char(delimiters, '|');
    assert forall|l: int, c: int| 0 <= l < height && 0 <= c < width implies slot_holds(
        text,
        table,
        paste,
        l,
        c,
        #[trigger] texts[l][c],
    ) by {
        assert(texts[l][c] == slots_of_line(text, table, paste, l)[c]);
        if l >= lines {
            assert(paste.slot_text(l - 1, c) is Some);
        }
    }
    assert(height == larger(lines, paste.start.row + paste.height + 1));
    assert(width == larger(columns, paste.start.column + paste.width));
    assert forall|l: int| 0 <= l < height implies (#[trigger] texts[l]).len() == width by {}
    assert(made == more_lines(
        own_lines(text, table, texts),
        texts,
        lines,
        eol,
        prefix,
        height - lines,
    ));
    assert(prefix == before_char(delimiters, '|'));
    assert(laid_out(text, table, paste, texts, made));
}

/// How much a pasted grid fills: a single cell fills the whole selected rectangle, and any
/// other grid its own rows and columns.
pub proof fn law_filled_rectangle(
    columns: int,
    count: int,
    table_columns: Option<usize>,
    selected: int,
)
    requires
        columns > 0,
        count > 0,
        count % columns == 0,
        table_columns matches Some(width) ==> 0 < width <= selected && selected % (width as int)
            == 0,
    ensures
        ({
            let width = paste_width(columns, count, table_columns);
            let height = paste_height(columns, count, table_columns, selected);
            if count == 1 && table_columns is Some {
                width == table_columns->Some_0 && width * height == selected
            } else {
                width == columns && width * height == count
            }
        }),
{
    vstd::arithmetic::div_mod::lemma_fundamental_div_mod(count, columns);
    if let Some(width) = table_columns {
        vstd::arithmetic::div_mod::lemma_fundamental_div_mod(selected, width as int);
    }
}

/// The slot that takes the last cell takes one, and no slot right of it or below it does.
pub proof fn law_last_slot_is_the_far_corner(paste: GridPaste, line: int, column: int)
    requires
        paste.wf(),
        line >= 0,
    ensures
        last_slot(paste).row + 1 == paste.start.row + paste.height,
        last_slot(paste).column + 1 == paste.start.column + paste.width,
        takes_cell(paste, line, column) ==> row_number(line) <= last_slot(paste).row && column
            <= last_slot(paste).column,
{
}

/// The texts of the cells of line `line` of a grid that is written as a table of its own: the
/// grid's first row, then dashes, then the other rows.
pub open spec fn grid_line(cells: Seq<CellInput>, columns: int, line: int) -> Seq<Seq<char>> {
    Seq::new(
        columns as nat,
        |c: int|
            if line == 1 {
                seq!['-', '-', '-']
            } else {
                cells[row_number(line) * columns + c].quoted->Some_0@
            },
    )
}

/// A line of a table whose cells stand between pipes and blanks.
pub open spec fn piped_line(texts: Seq<Seq<char>>) -> Seq<char> {
    seq!['|', ' '] + woven(
        texts,
        Seq::new((texts.len() - 1) as nat, |c: int| seq![' ', '|', ' ']),
    ) + seq![' ', '|']
}

proof fn lemma_serialized_cells(cells: Seq<CellInput>, first: int, columns: int, count: int)
    requires
        0 < count <= columns,
        0 <= first,
        first + columns <= cells.len(),
        forall|k: int| 0 <= k < cells.len() ==> (#[trigger] cells[k]).quoted is Some,
    ensures
        ({
            let texts = Seq::new(columns as nat, |c: int| cells[first + c].quoted->Some_0@);
            let bars = Seq::new((columns - 1) as nat, |c: int| seq![' ', '|', ' ']);
            serialized_cells(cells, first, first + count) == seq![' '] + woven(
                texts.take(count),
                bars,
            ) + seq![' ', '|']
        }),
    decreases count,
{
    reveal_strlit(" ");
    reveal_strlit(" |");
    let texts = Seq::new(columns as nat, |c: int| cells[first + c].quoted->Some_0@);
    let bars = Seq::new((columns - 1) as nat, |c: int| seq![' ', '|', ' ']);
    let made = serialized_cells(cells, first, first + count);
    assert(cells[first + count - 1].quoted is Some);
    if count == 1 {
        assert(serialized_cells(cells, first, first) =~= Seq::empty());
        assert(texts.take(1)[0] == texts[0]);
        assert(made =~= seq![' '] + woven(texts.take(1), bars) + seq![' ', '|']);
    } else {
        lemma_serialized_cells(cells, first, columns, count - 1);
        lemma_woven_push(texts, bars, count);
        assert(bars[count - 2] == seq![' ', '|', ' ']);
        assert(made =~= seq![' '] + woven(texts.take(count), bars) + seq![' ', '|']);
    }
}

proof fn lemma_dashes(columns: nat, count: nat)
    requires
        0 < count <= columns,
    ensures
        ({
            let texts = Seq::new(columns, |c: int| seq!['-', '-', '-']);
            let bars = Seq::new((columns - 1) as nat, |c: int| seq![' ', '|', ' ']);
            repeated(" --- |"@, count) == seq![' '] + woven(texts.take(count as int), bars) + seq![
                ' ',
                '|',
            ]
        }),
    decreases count,
{
    reveal_strlit(" --- |");
    let texts = Seq::new(columns, |c: int| seq!['-', '-', '-']);
    let bars = Seq::new((columns - 1) as nat, |c: int| seq![' ', '|', ' ']);
    let unit = " --- |"@;
    assert(unit =~= seq![' '] + seq!['-', '-', '-'] + seq![' ', '|']);
    let made = repeated(unit, count);
    if count == 1 {
        assert(repeated(unit, 0) =~= Seq::empty());
        assert(texts.take(1)[0] == texts[0]);
        assert(made =~= seq![' '] + woven(texts.take(1), bars) + seq![' ', '|']);
    } else {
        let fewer = (count - 1) as nat;
        lemma_dashes(columns, fewer);
        lemma_woven_push(texts, bars, count as int);
        assert(bars[count - 2] == seq![' ', '|', ' ']);
        assert(texts[count - 1] == seq!['-', '-', '-']);
        assert(made =~= seq![' '] + woven(texts.take(count as int), bars) + seq![' ', '|']);
    }
}

/// A grid that is written as a table of its own has its cells row by row, with the delimiter
/// line behind the first row, and one line for each.
pub proof fn law_written_grid_has_its_cells_in_order(
    cells: Seq<CellInput>,
    columns: int,
    rows: int,
)
    requires
        columns > 0,
        rows > 0,
        rows * columns <= cells.len(),
        forall|k: int| 0 <= k < cells.len() ==> (#[trigger] cells[k]).quoted is Some,
    ensures
        serialized_rows(cells, columns, rows) == woven(
            Seq::new((rows + 1) as nat, |l: int| piped_line(grid_line(cells, columns, l))),
            Seq::new(rows as nat, |l: int| seq!['\n']),
        ),
    decreases rows,
{
    let lines = Seq::new((rows + 1) as nat, |l: int| piped_line(grid_line(cells, columns, l)));
    let breaks = Seq::new(rows as nat, |l: int| seq!['\n']);
    let made = serialized_rows(cells, columns, rows);
    reveal_strlit("|");
    reveal_strlit("\n");
    reveal_strlit("\n|");
    let first = (rows - 1) * columns;
    assert(first + columns == rows * columns) by (nonlinear_arith)
        requires
            first == (rows - 1) * columns,
    ;
    assert(0 <= first) by (nonlinear_arith)
        requires
            first == (rows - 1) * columns,
            rows > 0,
            columns > 0,
    ;
    lemma_serialized_cells(cells, first, columns, columns);
    let texts = Seq::new(columns as nat, |c: int| cells[first + c].quoted->Some_0@);
    assert(texts.take(columns) =~= texts);
    let bars = Seq::new((columns - 1) as nat, |c: int| seq![' ', '|', ' ']);
    let row = "|"@ + serialized_cells(cells, first, rows * columns);
    assert(row =~= piped_line(texts)) by {
        assert(Seq::new((texts.len() - 1) as nat, |c: int| seq![' ', '|', ' ']) =~= bars);
    }
    if rows == 1 {
        assert(grid_line(cells, columns, 0) =~= texts) by {
            assert(0 * columns == 0) by (nonlinear_arith);
            assert(first == 0) by (nonlinear_arith)
                requires
                    first == (rows - 1) * columns,
                    rows == 1,
            ;
        }
        let dashes = Seq::new(columns as nat, |c: int| seq!['-', '-', '-']);
        lemma_dashes(columns as nat, columns as nat);
        assert(dashes.take(columns) =~= dashes);
        assert(grid_line(cells, columns, 1) =~= dashes);
        assert(serialized_rows(cells, columns, 0) =~= Seq::empty());
        assert(lines.drop_last() =~= seq![piped_line(texts)]);
        assert(woven(lines.drop_last(), breaks) == piped_line(texts));
        assert(lines.last() == piped_line(dashes));
        let delimiters = "|"@ + repeated(" --- |"@, columns as nat);
        assert(delimiters =~= piped_line(dashes)) by {
            assert(Seq::new((dashes.len() - 1) as nat, |c: int| seq![' ', '|', ' ']) =~= bars);
        }
        assert(breaks[0] == seq!['\n']);
        assert(made =~= row + seq!['\n'] + delimiters);
    } else {
        assert(rows * columns - columns == (rows - 1) * columns);
        law_written_grid_has_its_cells_in_order(cells, columns, rows - 1);
        assert(grid_line(cells, columns, rows) =~= texts);
        let fewer = Seq::new(rows as nat, |l: int| piped_line(grid_line(cells, columns, l)));
        let short = Seq::new((rows - 1) as nat, |l: int| seq!['\n']);
        assert(lines.drop_last() =~= fewer);
        lemma_woven_gaps(fewer, breaks, short);
        assert(lines.last() == piped_line(texts));
        assert(breaks[rows - 1] == seq!['\n']);
        assert(made =~= serialized_rows(cells, columns, rows - 1) + seq!['\n'] + row);
    }
}

} // verus!
