//! Plans for structural edits of, and pastes into, HTML tables.
//!
//! The edits of single tags come from the HTML model. What is decided here is
//! which edit to ask for, whether its outcome is accepted, and where the caret
//! or the selection goes.
use crate::document::error::EditorDocumentError;
use crate::document::html_cell_text::{encode_html_cell_text, encoded_cell_text};
use crate::document::session::EditorDocument;
use crate::document::table_edit::{
    pipe_planned, table_edit_plan, TableBlock, TableEdit, TableEditPlan,
};
use crate::document::table_paste::{lemma_woven_gaps, lemma_woven_push, woven, TableGridPlan};
use crate::edit::{edit_views, Edit, EditView};
use crate::grid::{SourceSpan, TableCellAddress, TableGrid};
use crate::html::{span_contains, span_in, span_is_valid, span_wf, HtmlAlignment};
use crate::offset::{ByteOffset, TextRange};
use crate::selection::{EditorSelection, Selections};
use crate::text::{
    chars_of, get, has_crlf, line_ending_of, same_text, slice, sliceable, span, string_of,
    trim_text, trimmed,
};
use vstd::prelude::*;

verus! {

/// An edit of an HTML table.
#[derive(Clone, Copy, Debug, PartialEq, Eq, Structural)]
pub enum HtmlTableAction {
    RemoveTable,
    DeleteRow { row: usize },
    InsertRow { row: usize, before: bool },
    EditColumn { column: usize, insert: bool },
    AlignColumn { column: usize, alignment: Option<HtmlAlignment> },
}

/// An edit of an HTML table, and the cell that the caret goes to.
#[derive(Clone, Copy, Debug, PartialEq, Eq, Structural)]
pub struct HtmlTableStep {
    pub action: HtmlTableAction,
    pub target: TableCellAddress,
}

/// The smaller of two numbers.
pub open spec fn smaller(a: int, b: int) -> int {
    if a < b {
        a
    } else {
        b
    }
}

/// What `edit` does at `current` in a table of `rows` by `columns`. To delete
/// the only row or column is to delete the table.
pub open spec fn html_step(rows: int, columns: int, current: TableCellAddress, edit: TableEdit)
    -> HtmlTableStep {
    let row = current.row;
    let column = current.column;
    match edit {
        TableEdit::DeleteRow => if rows == 1 {
            HtmlTableStep { action: HtmlTableAction::RemoveTable, target: current }
        } else {
            HtmlTableStep {
                action: HtmlTableAction::DeleteRow { row },
                target: TableCellAddress { row: smaller(row as int, rows - 2) as usize, column },
            }
        },
        TableEdit::InsertRowBefore => HtmlTableStep {
            action: HtmlTableAction::InsertRow { row, before: true },
            target: current,
        },
        TableEdit::InsertRowAfter => HtmlTableStep {
            action: HtmlTableAction::InsertRow { row, before: false },
            target: TableCellAddress { row: (row + 1) as usize, column },
        },
        TableEdit::DeleteColumn => if columns == 1 {
            HtmlTableStep { action: HtmlTableAction::RemoveTable, target: current }
        } else {
            HtmlTableStep {
                action: HtmlTableAction::EditColumn { column, insert: false },
                target: TableCellAddress {
                    row,
                    column: smaller(column as int, columns - 2) as usize,
                },
            }
        },
        TableEdit::InsertColumnBefore => HtmlTableStep {
            action: HtmlTableAction::EditColumn { column, insert: true },
            target: current,
        },
        TableEdit::InsertColumnAfter => HtmlTableStep {
            action: HtmlTableAction::EditColumn { column: (column + 1) as usize, insert: true },
            target: TableCellAddress { row, column: (column + 1) as usize },
        },
        TableEdit::AlignLeft => HtmlTableStep {
            action: HtmlTableAction::AlignColumn { column, alignment: Some(HtmlAlignment::Left) },
            target: current,
        },
        TableEdit::AlignCenter => HtmlTableStep {
            action: HtmlTableAction::AlignColumn { column, alignment: Some(HtmlAlignment::Center) },
            target: current,
        },
        TableEdit::AlignRight => HtmlTableStep {
            action: HtmlTableAction::AlignColumn { column, alignment: Some(HtmlAlignment::Right) },
            target: current,
        },
        TableEdit::AlignDefault => HtmlTableStep {
            action: HtmlTableAction::AlignColumn { column, alignment: None },
            target: current,
        },
    }
}

/// A cell of an HTML table: the table's size and source, the cell's slot and content.
#[derive(Clone, Copy, Debug, PartialEq, Eq, Structural)]
pub struct HtmlTableCell {
    pub rows: usize,
    pub columns: usize,
    pub table: SourceSpan,
    pub current: TableCellAddress,
    pub content: SourceSpan,
}

impl HtmlTableCell {
    /// Whether the table has the slot.
    pub open spec fn wf(self) -> bool {
        self.current.row < self.rows && self.current.column < self.columns
    }
}

/// Whether a command on a table has one owner: tables are shown as such, there is a single
/// selection, and it stays in the cell.
pub open spec fn owned_by(source_mode: bool, selections: Selections, content: SourceSpan) -> bool {
    &&& !source_mode
    &&& selections.ranges@.len() == 1
    &&& content.start <= selections.ranges@[selections.primary as int].ordered().start.value
    &&& selections.ranges@[selections.primary as int].ordered().end.value <= content.end
}

/// Decides what `edit` does at a cell. `None` in source mode, with several selections, and
/// where the selection leaves the cell.
pub fn html_table_edit_step(
    source_mode: bool,
    selections: &Selections,
    cell: HtmlTableCell,
    edit: TableEdit,
) -> (r: Option<HtmlTableStep>)
    requires
        cell.wf(),
        selections.primary < selections.ranges@.len(),
    ensures
        r == (if owned_by(source_mode, *selections, cell.content) {
            Some(html_step(cell.rows as int, cell.columns as int, cell.current, edit))
        } else {
            None
        }),
{
    if source_mode || selections.ranges.len() != 1 {
        return None;
    }
    let selection = selections.ranges[selections.primary].ordered_range();
    let HtmlTableCell { rows, columns, table: _, current, content } = cell;
    if selection.start.value < content.start as u64 || selection.end.value > content.end as u64 {
        return None;
    }
    let row = current.row;
    let column = current.column;
    let mut target = current;
    let action = match edit {
        TableEdit::DeleteRow => if rows == 1 {
            HtmlTableAction::RemoveTable
        } else {
            target.row = if row < rows - 2 {
                row
            } else {
                rows - 2
            };
            HtmlTableAction::DeleteRow { row }
        },
        TableEdit::InsertRowBefore => HtmlTableAction::InsertRow { row, before: true },
        TableEdit::InsertRowAfter => {
            target.row = row + 1;
            HtmlTableAction::InsertRow { row, before: false }
        },
        TableEdit::DeleteColumn => if columns == 1 {
            HtmlTableAction::RemoveTable
        } else {
            target.column = if column < columns - 2 {
                column
            } else {
                columns - 2
            };
            HtmlTableAction::EditColumn { column, insert: false }
        },
        TableEdit::InsertColumnBefore => HtmlTableAction::EditColumn { column, insert: true },
        TableEdit::InsertColumnAfter => {
            target.column = column + 1;
            HtmlTableAction::EditColumn { column: column + 1, insert: true }
        },
        TableEdit::AlignLeft => HtmlTableAction::AlignColumn {
            column,
            alignment: Some(HtmlAlignment::Left),
        },
        TableEdit::AlignCenter => HtmlTableAction::AlignColumn {
            column,
            alignment: Some(HtmlAlignment::Center),
        },
        TableEdit::AlignRight => HtmlTableAction::AlignColumn {
            column,
            alignment: Some(HtmlAlignment::Right),
        },
        TableEdit::AlignDefault => HtmlTableAction::AlignColumn { column, alignment: None },
    };
    Some(HtmlTableStep { action, target })
}

/// Whether `r` is the plan of a decided step with these edits: none where nothing would
/// change.
pub open spec fn step_planned(
    step: HtmlTableStep,
    table: SourceSpan,
    edits: Seq<EditView>,
    r: Option<TableEditPlan>,
) -> bool {
    if edits.len() == 0 {
        r is None
    } else {
        r matches Some(plan) && edit_views(plan.edits@) == edits && plan.table_start.value
            == table.start && plan.target == step.target
    }
}

/// The removal of a whole table.
pub open spec fn table_removal(table: SourceSpan) -> Seq<EditView> {
    seq![EditView { start: table.start as int, end: table.end as int, text: Seq::empty() }]
}

/// Plans `edit` at a cell of an HTML table. `edits` gives the edits of an action on the
/// table's markup, where it can be carried out; a table that loses its last row or column
/// is removed. `None` in source mode, with several selections, where the selection leaves
/// the cell, and where nothing would change.
pub fn html_table_edit_plan<F: FnOnce(HtmlTableAction) -> Option<Vec<Edit>>>(
    source_mode: bool,
    selections: &Selections,
    cell: HtmlTableCell,
    edit: TableEdit,
    edits: F,
) -> (r: Option<TableEditPlan>)
    requires
        cell.wf(),
        selections.primary < selections.ranges@.len(),
        forall|action: HtmlTableAction| #[trigger] edits.requires((action,)),
    ensures
        ({
            let step = html_step(cell.rows as int, cell.columns as int, cell.current, edit);
            if !owned_by(source_mode, *selections, cell.content) {
                r is None
            } else if step.action == HtmlTableAction::RemoveTable {
                step_planned(step, cell.table, table_removal(cell.table), r)
            } else {
                exists|made: Option<Vec<Edit>>| #[trigger]
                    edits.ensures((step.action,), made) && match made {
                        Some(made) => step_planned(step, cell.table, edit_views(made@), r),
                        None => r is None,
                    }
            }
        }),
{
    let step = html_table_edit_step(source_mode, selections, cell, edit)?;
    let made = if step.action == HtmlTableAction::RemoveTable {
        let mut one: Vec<Edit> = Vec::new();
        let removal = Edit::replace(cell.table.start, cell.table.end, String::new());
        one.push(removal);
        proof {
            assert(removal@.text =~= Seq::empty());
            assert(edit_views(one@) =~= table_removal(cell.table));
        }
        one
    } else {
        let planned = edits(step.action);
        assert(edits.ensures((step.action,), planned));
        planned?
    };
    assert(edit_views(made@).len() == made@.len());
    if made.len() == 0 {
        return None;
    }
    Some(
        TableEditPlan {
            edits: made,
            table_start: ByteOffset::new(cell.table.start as u64),
            target: step.target,
        },
    )
}

/// The table around the caret: one in HTML, or a pipe table with the caret's slot.
#[derive(Debug)]
pub enum TableTarget<'a> {
    Html(HtmlTableCell),
    Pipe(&'a TableBlock, TableCellAddress),
}

impl EditorDocument {
    /// Plans a command on the table around the caret. `edits` gives the edits of an action
    /// on the markup of an HTML table.
    pub fn table_edit_plan<F: FnOnce(HtmlTableAction) -> Option<Vec<Edit>>>(
        &self,
        selections: &Selections,
        target: TableTarget<'_>,
        edit: TableEdit,
        edits: F,
    ) -> (r: Option<TableEditPlan>)
        requires
            selections.wf(self.buffer.text@),
            match target {
                TableTarget::Html(cell) => cell.wf(),
                TableTarget::Pipe(table, _) => table.wf(self.buffer.text@),
            },
            forall|action: HtmlTableAction| #[trigger] edits.requires((action,)),
        ensures
            selections.ranges@.len() > 1 ==> r is None,
            match target {
                TableTarget::Html(cell) => {
                    let step = html_step(cell.rows as int, cell.columns as int, cell.current, edit);
                    if !owned_by(self.source_mode, *selections, cell.content) {
                        r is None
                    } else if step.action == HtmlTableAction::RemoveTable {
                        step_planned(step, cell.table, table_removal(cell.table), r)
                    } else {
                        exists|made: Option<Vec<Edit>>| #[trigger]
                            edits.ensures((step.action,), made) && match made {
                                Some(made) => step_planned(step, cell.table, edit_views(made@), r),
                                None => r is None,
                            }
                    }
                },
                TableTarget::Pipe(table, current) => pipe_planned(
                    self.buffer.text@,
                    *table,
                    current,
                    *selections,
                    edit,
                    r,
                ),
            },
    {
        match target {
            TableTarget::Html(cell) => html_table_edit_plan(
                self.source_mode,
                selections,
                cell,
                edit,
                edits,
            ),
            TableTarget::Pipe(table, current) => table_edit_plan(
                self.buffer.as_str(),
                table,
                current,
                selections,
                edit,
            ),
        }
    }
}

/// The cells of one row from `first` up to `end`.
pub open spec fn grid_cells(cells: Seq<String>, first: int, end: int) -> Seq<char>
    decreases end - first,
{
    if end <= first {
        Seq::empty()
    } else {
        grid_cells(cells, first, end - 1) + "<td>"@ + cells[end - 1]@ + "</td>"@
    }
}

/// The first `rows` rows.
pub open spec fn grid_rows(cells: Seq<String>, columns: int, rows: int) -> Seq<char>
    decreases rows,
{
    if rows <= 0 {
        Seq::empty()
    } else {
        grid_rows(cells, columns, rows - 1) + "<tr>"@ + grid_cells(
            cells,
            (rows - 1) * columns,
            rows * columns,
        ) + "</tr>"@
    }
}

/// Whether `count` cells fill rows of `columns` cells.
pub open spec fn forms_grid(columns: usize, count: nat) -> bool {
    columns > 0 && count > 0 && count % (columns as nat) == 0
}

/// Writes a grid of cell contents as an HTML table.
pub fn html_grid_markup(columns: usize, cells: &Vec<String>) -> (r: Result<
    String,
    EditorDocumentError,
>)
    ensures
        match r {
            Ok(source) => forms_grid(columns, cells@.len()) && source@ == "<table>"@ + grid_rows(
                cells@,
                columns as int,
                cells@.len() as int / columns as int,
            ) + "</table>"@,
            Err(e) => !forms_grid(columns, cells@.len()) && e
                == EditorDocumentError::InvalidTablePaste,
        },
{
    if columns == 0 || cells.len() == 0 || cells.len() % columns != 0 {
        return Err(EditorDocumentError::InvalidTablePaste);
    }
    let rows: usize = cells.len() / columns;
    proof {
        vstd::arithmetic::div_mod::lemma_fundamental_div_mod(cells@.len() as int, columns as int);
        assert(columns * rows == rows * columns) by (nonlinear_arith);
        assert(0 * columns == 0) by (nonlinear_arith);
    }
    let mut source = String::new();
    source.push_str("<table>");
    let ghost opened = source@;
    assert(opened =~= "<table>"@);
    let mut row: usize = 0;
    let mut next: usize = 0;
    assert(opened + Seq::<char>::empty() =~= opened);
    while row < rows
        invariant
            columns > 0,
            rows * columns == cells@.len(),
            row <= rows,
            next == row * columns,
            source@ == opened + grid_rows(cells@, columns as int, row as int),
        decreases rows - row,
    {
        source.push_str("<tr>");
        let ghost head = source@;
        let first = next;
        proof {
            assert(row * columns + columns == (row + 1) * columns) by (nonlinear_arith);
            assert((row + 1) * columns <= rows * columns) by (nonlinear_arith)
                requires
                    row < rows,
                    0 <= columns,
            ;
            assert(cells@.len() == cells.len());
            assert(head + Seq::<char>::empty() =~= head);
        }
        let end: usize = first + columns;
        while next < end
            invariant
                first <= next <= end <= cells@.len(),
                source@ == head + grid_cells(cells@, first as int, next as int),
            decreases end - next,
        {
            source.push_str("<td>");
            source.push_str(cells[next].as_str());
            source.push_str("</td>");
            assert(source@ =~= head + grid_cells(cells@, first as int, next + 1));
            next += 1;
        }
        source.push_str("</tr>");
        assert(source@ =~= opened + grid_rows(cells@, columns as int, row + 1));
        row += 1;
    }
    source.push_str("</table>");
    Ok(source)
}

/// What was read back from a table's markup: its dimensions, and the content of
/// each of its cells.
#[derive(Debug)]
pub struct ReadTable {
    pub source: SourceSpan,
    pub columns: usize,
    pub rows: usize,
    pub contents: Vec<SourceSpan>,
    /// Whether every footnote that it mentions is defined.
    pub footnotes_resolve: bool,
}

impl ReadTable {
    /// Whether the spans address `text`.
    pub open spec fn wf(self, text: Seq<char>) -> bool {
        &&& span_wf(text, self.source)
        &&& forall|i: int|
            0 <= i < self.contents@.len() ==> span_wf(text, #[trigger] self.contents@[i])
                && span_in(self.source, self.contents@[i])
    }

    /// Whether the spans address `text`.
    pub fn is_valid(&self, text: &str) -> (r: bool)
        ensures
            r == self.wf(text@),
    {
        if !span_is_valid(text, self.source) {
            return false;
        }
        let mut i: usize = 0;
        while i < self.contents.len()
            invariant
                i <= self.contents@.len(),
                span_wf(text@, self.source),
                forall|k: int|
                    0 <= k < i ==> span_wf(text@, #[trigger] self.contents@[k]) && span_in(
                        self.source,
                        self.contents@[k],
                    ),
            decreases self.contents@.len() - i,
        {
            if !span_is_valid(text, self.contents[i]) || !span_contains(
                self.source,
                self.contents[i],
            ) {
                assert(!(span_wf(text@, self.contents@[i as int]) && span_in(
                    self.source,
                    self.contents@[i as int],
                )));
                return false;
            }
            i += 1;
        }
        true
    }
}

/// Whether reading `markup` back gave exactly the cells that were written.
pub open spec fn reads_back(
    markup: Seq<char>,
    columns: int,
    cells: Seq<String>,
    table: ReadTable,
) -> bool {
    &&& table.columns == columns
    &&& table.rows == cells.len() as int / columns
    &&& table.contents@.len() == cells.len()
    &&& forall|i: int|
        0 <= i < cells.len() ==> span(
            markup,
            table.contents@[i].start as int,
            table.contents@[i].end as int,
        ) == (#[trigger] cells[i])@
}

/// Accepts the markup of a grid if it reads back as that grid and its footnotes
/// resolve. `read` is the only table that was found in the markup.
pub fn html_grid_source(
    markup: String,
    columns: usize,
    cells: &Vec<String>,
    read: Option<&ReadTable>,
) -> (r: Result<String, EditorDocumentError>)
    requires
        columns > 0,
        read matches Some(table) ==> table.wf(markup@),
    ensures
        match r {
            Ok(source) => source == markup && read is Some && reads_back(
                markup@,
                columns as int,
                cells@,
                *read->0,
            ) && read->0.footnotes_resolve,
            Err(e) => e == EditorDocumentError::InvalidTablePaste && (read is None || !reads_back(
                markup@,
                columns as int,
                cells@,
                *read->0,
            ) || !read->0.footnotes_resolve),
        },
{
    let table = match read {
        Some(table) => table,
        None => {
            return Err(EditorDocumentError::InvalidTablePaste);
        },
    };
    if table.columns != columns || table.rows != cells.len() / columns || table.contents.len()
        != cells.len() || !table.footnotes_resolve {
        return Err(EditorDocumentError::InvalidTablePaste);
    }
    let mut i: usize = 0;
    while i < cells.len()
        invariant
            i <= cells@.len(),
            read == Some(table),
            table.wf(markup@),
            table.contents@.len() == cells@.len(),
            forall|k: int|
                0 <= k < i ==> span(
                    markup@,
                    table.contents@[k].start as int,
                    table.contents@[k].end as int,
                ) == (#[trigger] cells@[k])@,
        decreases cells@.len() - i,
    {
        let content = table.contents[i];
        assert(span_wf(markup@, table.contents@[i as int]));
        if !same_text(slice(markup.as_str(), content.start, content.end), cells[i].as_str()) {
            assert(span(
                markup@,
                table.contents@[i as int].start as int,
                table.contents@[i as int].end as int,
            ) != cells@[i as int]@);
            return Err(EditorDocumentError::InvalidTablePaste);
        }
        i += 1;
    }
    Ok(markup)
}

/// The rectangle that a paste into an HTML table fills.
#[derive(Clone, Copy, Debug, PartialEq, Eq, Structural)]
pub struct HtmlGridTarget {
    pub start: TableCellAddress,
    /// The slot that takes the last cell.
    pub last: TableCellAddress,
    /// Whether one cell fills the whole rectangle.
    pub fill: bool,
}

/// How wide and how high the filled rectangle is.
pub open spec fn html_extent(columns: int, count: int, selections: Selections) -> (int, int) {
    match selections.table {
        Some(table) if count == 1 => (
            table.columns as int,
            table.slots@.len() as int / table.columns as int,
        ),
        _ => (columns, count / columns),
    }
}

/// Whether a grid of `count` cells can be pasted at `start`.
pub open spec fn html_pasteable(
    grid: TableGrid,
    selections: Selections,
    start: Option<TableCellAddress>,
    columns: usize,
    count: nat,
) -> bool {
    let (width, height) = html_extent(columns as int, count as int, selections);
    &&& forms_grid(columns, count)
    &&& start matches Some(address) && {
        &&& grid.owner(address.row as int, address.column as int) is Some
        &&& selections.ranges@[0].ordered().end.value <= grid.cells@[grid.owner(
            address.row as int,
            address.column as int,
        )->0 as int].end
        &&& address.row + height <= usize::MAX
        &&& address.column + width <= usize::MAX
    }
}

/// Finds the rectangle that a grid of `count` cells fills when it is pasted at
/// `start`, the cell that holds the first selection. A single cell fills the
/// selected rectangle. In source mode nothing is pasted into an HTML table.
pub fn html_table_grid_target(
    source_mode: bool,
    source: &str,
    grid: &TableGrid,
    selections: &Selections,
    start: Option<TableCellAddress>,
    columns: usize,
    count: usize,
) -> (r: Result<HtmlGridTarget, EditorDocumentError>)
    requires
        grid.wf(),
        selections.wf(source@),
        selections.table matches Some(table) ==> table.slots@.len() > 0,
    ensures
        ({
            let (width, height) = html_extent(columns as int, count as int, *selections);
            match r {
                Ok(target) => {
                    &&& !source_mode
                    &&& html_pasteable(*grid, *selections, start, columns, count as nat)
                    &&& Some(target.start) == start
                    &&& target.last.row == target.start.row + height - 1
                    &&& target.last.column == target.start.column + width - 1
                    &&& target.fill == (count == 1)
                },
                Err(e) => e == EditorDocumentError::InvalidTablePaste && (source_mode
                    || !html_pasteable(*grid, *selections, start, columns, count as nat)),
            }
        }),
{
    if columns == 0 || count == 0 || count % columns != 0 || source_mode {
        return Err(EditorDocumentError::InvalidTablePaste);
    }
    let address = match start {
        Some(address) => address,
        None => {
            return Err(EditorDocumentError::InvalidTablePaste);
        },
    };
    let owner = match grid.visible_cell(address) {
        Some(owner) => owner,
        None => {
            return Err(EditorDocumentError::InvalidTablePaste);
        },
    };
    if selections.ranges[0].ordered_range().end.value > owner.end as u64 {
        return Err(EditorDocumentError::InvalidTablePaste);
    }
    let mut width: usize = columns;
    let mut height: usize = count / columns;
    proof {
        vstd::arithmetic::div_mod::lemma_fundamental_div_mod(count as int, columns as int);
        assert(columns * 0 == 0);
        assert(height != 0);
    }
    if count == 1 {
        if let Some(table) = &selections.table {
            width = table.columns;
            height = table.slots.len() / table.columns;
            proof {
                vstd::arithmetic::div_mod::lemma_fundamental_div_mod(
                    table.slots@.len() as int,
                    table.columns as int,
                );
                assert(table.columns * 0 == 0);
                assert(height != 0);
            }
        }
    }
    match (address.row.checked_add(height), address.column.checked_add(width)) {
        (Some(end_row), Some(end_column)) => Ok(
            HtmlGridTarget {
                start: address,
                last: TableCellAddress::new(end_row - 1, end_column - 1),
                fill: count == 1,
            },
        ),
        _ => Err(EditorDocumentError::InvalidTablePaste),
    }
}

/// The contents that a grid paste writes: HTML as it is, plain text encoded.
pub fn html_grid_contents(cells: &Vec<String>, html_source: bool) -> (r: Vec<String>)
    ensures
        r@.len() == cells@.len(),
        forall|i: int|
            0 <= i < cells@.len() ==> (#[trigger] r@[i])@ == (if html_source {
                cells@[i]@
            } else {
                encoded_cell_text(cells@[i]@)
            }),
{
    let mut out: Vec<String> = Vec::new();
    let mut i: usize = 0;
    while i < cells.len()
        invariant
            i <= cells@.len(),
            out@.len() == i,
            forall|k: int|
                0 <= k < i ==> (#[trigger] out@[k])@ == (if html_source {
                    cells@[k]@
                } else {
                    encoded_cell_text(cells@[k]@)
                }),
        decreases cells@.len() - i,
    {
        if html_source {
            out.push(cells[i].clone());
        } else {
            out.push(encode_html_cell_text(cells[i].as_str()));
        }
        i += 1;
    }
    out
}

/// Where the cell at `address` of a table read from the pasted source starts in
/// the document.
pub open spec fn read_cell(grid: TableGrid, address: TableCellAddress, base: int) -> Option<int> {
    match grid.owner(address.row as int, address.column as int) {
        Some(owner) if grid.cells@[owner as int].start + base <= usize::MAX => Some(
            grid.cells@[owner as int].start + base,
        ),
        _ => None,
    }
}

fn read_cell_at(grid: &TableGrid, address: TableCellAddress, base: u64) -> (r: Option<usize>)
    requires
        grid.wf(),
    ensures
        match r {
            Some(at) => read_cell(*grid, address, base as int) == Some(at as int),
            None => read_cell(*grid, address, base as int) is None,
        },
{
    match grid.visible_cell(address) {
        Some(cell) => if base <= (usize::MAX - cell.start) as u64 {
            Some(cell.start + base as usize)
        } else {
            None
        },
        None => None,
    }
}

/// The plan that replaces `range` by `pasted` and selects from `start` to `last`.
/// `read` is the table that was found in the pasted source.
pub fn html_table_grid_plan(
    range: TextRange,
    pasted: String,
    read: Option<&TableGrid>,
    start: TableCellAddress,
    last: TableCellAddress,
) -> (r: Result<TableGridPlan, EditorDocumentError>)
    requires
        read matches Some(grid) ==> grid.wf(),
    ensures
        ({
            let base = range.start.value as int;
            let fits = read matches Some(grid) && read_cell(*grid, start, base) is Some
                && read_cell(*grid, last, base) is Some;
            match r {
                Ok(plan) => {
                    &&& fits
                    &&& plan.range == range
                    &&& plan.source@ == pasted@
                    &&& edit_views(plan.edits@) == seq![
                        EditView {
                            start: range.start.value as int,
                            end: range.end.value as int,
                            text: pasted@,
                        },
                    ]
                    &&& Some(plan.anchor as int) == read_cell(*read->0, start, base)
                    &&& Some(plan.focus as int) == read_cell(*read->0, last, base)
                },
                Err(e) => !fits && e == EditorDocumentError::InvalidTablePaste,
            }
        }),
{
    let grid = match read {
        Some(grid) => grid,
        None => {
            return Err(EditorDocumentError::InvalidTablePaste);
        },
    };
    let anchor = read_cell_at(grid, start, range.start.value);
    let focus = read_cell_at(grid, last, range.start.value);
    match (anchor, focus) {
        (Some(anchor), Some(focus)) => Ok(replacement_plan(range, pasted, anchor, focus)),
        _ => Err(EditorDocumentError::InvalidTablePaste),
    }
}

fn replacement_plan(range: TextRange, source: String, anchor: usize, focus: usize) -> (r:
    TableGridPlan)
    ensures
        r.range == range,
        r.source@ == source@,
        r.anchor == anchor,
        r.focus == focus,
        edit_views(r.edits@) == seq![
            EditView {
                start: range.start.value as int,
                end: range.end.value as int,
                text: source@,
            },
        ],
{
    let edit = Edit::new(range, source.clone());
    let mut edits: Vec<Edit> = Vec::new();
    edits.push(edit);
    assert(edit_views(edits@) =~= seq![edit@]);
    TableGridPlan { range, source, edits, anchor, focus }
}

/// Whether a clipboard payload is one HTML table and nothing else.
pub open spec fn is_table_payload(payload: Seq<char>, read: Option<&ReadTable>) -> bool {
    read matches Some(table) && {
        &&& sliceable(payload, table.source.start as int, table.source.end as int)
        &&& trimmed(span(payload, table.source.start as int, table.source.end as int)) == trimmed(
            payload,
        )
        &&& table.footnotes_resolve
    }
}

/// The table's own source in a clipboard payload that is one HTML table and
/// nothing else but white space around it.
pub fn html_table_payload(payload: &str, read: Option<&ReadTable>) -> (r: Result<
    String,
    EditorDocumentError,
>)
    ensures
        match r {
            Ok(text) => is_table_payload(payload@, read) && text@ == span(
                payload@,
                read->0.source.start as int,
                read->0.source.end as int,
            ),
            Err(e) => !is_table_payload(payload@, read) && e
                == EditorDocumentError::InvalidTablePaste,
        },
{
    let table = match read {
        Some(table) => table,
        None => {
            return Err(EditorDocumentError::InvalidTablePaste);
        },
    };
    let text = match get(payload, table.source.start, table.source.end) {
        Some(text) => text,
        None => {
            return Err(EditorDocumentError::InvalidTablePaste);
        },
    };
    if trim_text(text) != trim_text(payload) || !table.footnotes_resolve {
        return Err(EditorDocumentError::InvalidTablePaste);
    }
    Ok(text.to_owned())
}

/// How a pasted table meets an HTML table.
#[derive(Clone, Copy, Debug, PartialEq, Eq, Structural)]
pub enum HtmlPasteRoute {
    /// Every cell is selected: the pasted table replaces the whole table.
    Replace,
    /// The pasted cells are merged into the table.
    Merge,
}

/// Whether the selections are exactly the given cells, in order.
pub open spec fn selects_all(selections: Selections, cells: Seq<SourceSpan>) -> bool {
    &&& cells.len() == selections.ranges@.len()
    &&& forall|i: int|
        0 <= i < cells.len() ==> (#[trigger] cells[i]).start
            == selections.ranges@[i].ordered().start.value && cells[i].end
            == selections.ranges@[i].ordered().end.value
}

/// Whether a selection leaves the table.
pub open spec fn selects_outside(selections: Selections, table: SourceSpan) -> bool {
    exists|i: int|
        0 <= i < selections.ranges@.len() && ((
        #[trigger] selections.ranges@[i]).ordered().start.value < table.start
            || selections.ranges@[i].ordered().end.value > table.end)
}

/// Decides how a pasted table meets the HTML table at `table` with `cells`.
/// `start_found` says whether the first selection lies in one of the cells.
pub fn html_table_source_route(
    selections: &Selections,
    table: SourceSpan,
    cells: &Vec<SourceSpan>,
    start_found: bool,
) -> (r: Result<HtmlPasteRoute, EditorDocumentError>)
    ensures
        r == (if selects_all(*selections, cells@) {
            Ok(HtmlPasteRoute::Replace)
        } else if start_found && !selects_outside(*selections, table) {
            Ok(HtmlPasteRoute::Merge)
        } else {
            Err(EditorDocumentError::InvalidTablePaste)
        }),
{
    let mut all = cells.len() == selections.ranges.len();
    let mut i: usize = 0;
    while all && i < cells.len()
        invariant
            i <= cells@.len(),
            all ==> cells@.len() == selections.ranges@.len(),
            all ==> forall|k: int|
                0 <= k < i ==> (#[trigger] cells@[k]).start
                    == selections.ranges@[k].ordered().start.value && cells@[k].end
                    == selections.ranges@[k].ordered().end.value,
            !all ==> !selects_all(*selections, cells@),
        decreases cells@.len() - i,
    {
        let range = selections.ranges[i].ordered_range();
        if cells[i].start as u64 != range.start.value || cells[i].end as u64 != range.end.value {
            assert(!(cells@[i as int].start == selections.ranges@[i as int].ordered().start.value
                && cells@[i as int].end == selections.ranges@[i as int].ordered().end.value));
            all = false;
        }
        i += 1;
    }
    if all {
        return Ok(HtmlPasteRoute::Replace);
    }
    if !start_found {
        return Err(EditorDocumentError::InvalidTablePaste);
    }
    let mut j: usize = 0;
    while j < selections.ranges.len()
        invariant
            j <= selections.ranges@.len(),
            start_found,
            !selects_all(*selections, cells@),
            forall|k: int|
                0 <= k < j ==> !((#[trigger] selections.ranges@[k]).ordered().start.value
                    < table.start || selections.ranges@[k].ordered().end.value > table.end),
        decreases selections.ranges@.len() - j,
    {
        let range = selections.ranges[j].ordered_range();
        if range.start.value < table.start as u64 || range.end.value > table.end as u64 {
            assert(selections.ranges@[j as int].ordered().start.value < table.start
                || selections.ranges@[j as int].ordered().end.value > table.end);
            return Err(EditorDocumentError::InvalidTablePaste);
        }
        j += 1;
    }
    Ok(HtmlPasteRoute::Merge)
}

/// The plan that replaces the whole table at `range` by the pasted table `text`,
/// which was read as `read` from a longer payload, and selects all its cells.
pub fn html_table_replacement_plan(range: TextRange, text: String, read: &ReadTable) -> (r: Result<
    TableGridPlan,
    EditorDocumentError,
>)
    requires
        forall|i: int|
            0 <= i < read.contents@.len() ==> read.source.start <= (
            #[trigger] read.contents@[i]).start,
    ensures
        ({
            let cells = read.contents@;
            let base = range.start.value - read.source.start;
            let fits = cells.len() > 0 && cells.first().start + base <= usize::MAX
                && cells.last().start + base <= usize::MAX;
            match r {
                Ok(plan) => {
                    &&& fits
                    &&& plan.range == range
                    &&& plan.source@ == text@
                    &&& edit_views(plan.edits@) == seq![
                        EditView {
                            start: range.start.value as int,
                            end: range.end.value as int,
                            text: text@,
                        },
                    ]
                    &&& plan.anchor == cells.first().start + base
                    &&& plan.focus == cells.last().start + base
                },
                Err(e) => !fits && e == EditorDocumentError::InvalidTablePaste,
            }
        }),
{
    if read.contents.len() == 0 {
        return Err(EditorDocumentError::InvalidTablePaste);
    }
    assert(read.source.start <= read.contents@[0].start);
    assert(read.source.start <= read.contents@[read.contents@.len() - 1].start);
    let first: usize = read.contents[0].start - read.source.start;
    let last: usize = read.contents[read.contents.len() - 1].start - read.source.start;
    let base = range.start.value;
    if base > (usize::MAX - first) as u64 || base > (usize::MAX - last) as u64 {
        return Err(EditorDocumentError::InvalidTablePaste);
    }
    Ok(replacement_plan(range, text, first + base as usize, last + base as usize))
}

/// Whether a selection ends inside `cell`, the cell that it starts in.
pub open spec fn inside_cell(selection: EditorSelection, cell: Option<SourceSpan>) -> bool {
    match cell {
        Some(cell) => selection.ordered().end.value <= cell.end,
        None => false,
    }
}

/// Whether every selection lies inside one cell. `cells` holds, for each
/// selection, the cell that it starts in.
pub open spec fn inside_cells(selections: Selections, cells: Seq<Option<SourceSpan>>) -> bool {
    forall|i: int|
        0 <= i < selections.ranges@.len() ==> inside_cell(#[trigger] selections.ranges@[i], cells[i])
}

/// Whether a pasted HTML table can turn the pipe table around the selections
/// into an HTML table: the selections are one range or a rectangle of cells,
/// and each stays inside one cell.
pub fn markdown_table_accepts(selections: &Selections, cells: &Vec<Option<SourceSpan>>) -> (r:
    Result<(), EditorDocumentError>)
    requires
        cells@.len() == selections.ranges@.len(),
    ensures
        r == (if (selections.ranges@.len() > 1 && selections.columns() is None) || !inside_cells(
            *selections,
            cells@,
        ) {
            Err::<(), EditorDocumentError>(EditorDocumentError::InvalidTablePaste)
        } else {
            Ok::<(), EditorDocumentError>(())
        }),
{
    if selections.is_multiple() && selections.table_columns().is_none() {
        return Err(EditorDocumentError::InvalidTablePaste);
    }
    let mut i: usize = 0;
    while i < selections.ranges.len()
        invariant
            i <= selections.ranges@.len(),
            cells@.len() == selections.ranges@.len(),
            forall|k: int|
                0 <= k < i ==> inside_cell(#[trigger] selections.ranges@[k], cells@[k]),
        decreases selections.ranges@.len() - i,
    {
        let end = selections.ranges[i].ordered_range().end.value;
        match cells[i] {
            Some(cell) => {
                if end > cell.end as u64 {
                    assert(!inside_cell(selections.ranges@[i as int], cells@[i as int]));
                    return Err(EditorDocumentError::InvalidTablePaste);
                }
            },
            None => {
                assert(!inside_cell(selections.ranges@[i as int], cells@[i as int]));
                return Err(EditorDocumentError::InvalidTablePaste);
            },
        }
        i += 1;
    }
    Ok(())
}

/// `text` with every line feed, alone or behind a carriage return, written as
/// both.
pub open spec fn with_crlf(text: Seq<char>) -> Seq<char>
    decreases text.len(),
{
    if text.len() == 0 {
        Seq::empty()
    } else if text[0] == '\r' && text.len() > 1 && text[1] == '\n' {
        "\r\n"@ + with_crlf(text.skip(2))
    } else if text[0] == '\n' {
        "\r\n"@ + with_crlf(text.drop_first())
    } else {
        seq![text[0]] + with_crlf(text.drop_first())
    }
}

/// The line breaks at the end of `text`.
pub open spec fn trailing_breaks(text: Seq<char>) -> Seq<char>
    decreases text.len(),
{
    if text.len() > 0 && (text.last() == '\r' || text.last() == '\n') {
        trailing_breaks(text.drop_last()).push(text.last())
    } else {
        Seq::empty()
    }
}

/// The pasted table with the line endings of the table that it replaces.
pub open spec fn with_line_endings(pasted: Seq<char>, original: Seq<char>) -> Seq<char> {
    (if has_crlf(original) {
        with_crlf(pasted)
    } else {
        pasted
    }) + trailing_breaks(original)
}

/// Gives the pasted table the line endings of the table that it replaces.
pub fn adopt_line_endings(pasted: &str, original: &str) -> (r: String)
    ensures
        r@ == with_line_endings(pasted@, original@),
{
    let mut made = if uses_crlf(original) {
        to_crlf(pasted)
    } else {
        pasted.to_owned()
    };
    let chars = chars_of(original);
    let mut start: usize = chars.len();
    proof {
        assert(chars@.take(start as int) =~= chars@);
        assert(trailing_breaks(chars@) =~= trailing_breaks(chars@) + chars@.skip(start as int));
    }
    while start > 0 && (chars[start - 1] == '\r' || chars[start - 1] == '\n')
        invariant
            start <= chars@.len(),
            trailing_breaks(chars@) == trailing_breaks(chars@.take(start as int)) + chars@.skip(
                start as int,
            ),
        decreases start,
    {
        proof {
            let part = chars@.take(start as int);
            assert(part.last() == chars@[start - 1]);
            assert(part.drop_last() =~= chars@.take(start - 1));
            assert(trailing_breaks(part) + chars@.skip(start as int) =~= trailing_breaks(
                chars@.take(start - 1),
            ) + chars@.skip(start - 1));
        }
        start -= 1;
    }
    proof {
        let part = chars@.take(start as int);
        if start > 0 {
            assert(part.last() == chars@[start - 1]);
        }
        assert(trailing_breaks(part) =~= Seq::empty());
        assert(trailing_breaks(chars@) =~= chars@.subrange(start as int, chars@.len() as int));
    }
    let tail = string_of(chars.as_slice(), start, chars.len());
    made.push_str(tail.as_str());
    made
}

fn uses_crlf(text: &str) -> (r: bool)
    ensures
        r == has_crlf(text@),
{
    let ending = line_ending_of(text);
    proof {
        reveal_strlit("\r\n");
        reveal_strlit("\n");
        assert("\r\n"@.len() == 2);
        assert("\n"@.len() == 1);
    }
    same_text(ending, "\r\n")
}

fn to_crlf(text: &str) -> (r: String)
    ensures
        r@ == with_crlf(text@),
{
    let chars = chars_of(text);
    let ghost all = text@;
    let mut out = String::new();
    let mut i: usize = 0;
    assert(all.skip(0) =~= all);
    assert(out@ + with_crlf(all) =~= with_crlf(all));
    while i < chars.len()
        invariant
            chars@ == all,
            i <= all.len(),
            out@ + with_crlf(all.skip(i as int)) == with_crlf(all),
        decreases all.len() - i,
    {
        let ghost before = out@;
        let ghost rest = all.skip(i as int);
        let c = chars[i];
        assert(rest[0] == c);
        assert(rest.len() > 1 ==> rest[1] == all[i + 1]);
        if c == '\r' && i + 1 < chars.len() && chars[i + 1] == '\n' {
            assert(rest.skip(2) =~= all.skip(i + 2));
            out.push_str("\r\n");
            assert(out@ + with_crlf(all.skip(i + 2)) =~= before + with_crlf(rest));
            i += 2;
            continue;
        }
        assert(rest.drop_first() =~= all.skip(i + 1));
        if c == '\n' {
            out.push_str("\r\n");
        } else {
            out.push(c);
        }
        assert(out@ + with_crlf(all.skip(i + 1)) =~= before + with_crlf(rest));
        i += 1;
    }
    assert(all.skip(i as int) =~= Seq::empty());
    assert(out@ + Seq::<char>::empty() =~= out@);
    out
}

/// What a command does to an HTML table, by the slot it is given at. New rows and columns
/// come right before or right behind that slot's, and the caret goes into them; a row or
/// column that is deleted is that slot's own, and the caret goes to what took its place, or to
/// the last; the only row or column takes the table with it; an alignment is that of the
/// slot's column, and the caret stays.
pub proof fn law_command_acts_on_its_slot(
    rows: int,
    columns: int,
    current: TableCellAddress,
    edit: TableEdit,
)
    requires
        current.row < rows <= usize::MAX,
        current.column < columns <= usize::MAX,
    ensures
        ({
            let step = html_step(rows, columns, current, edit);
            match step.action {
                HtmlTableAction::RemoveTable => {
                    &&& (edit == TableEdit::DeleteRow && rows == 1) || (edit
                        == TableEdit::DeleteColumn && columns == 1)
                    &&& step.target == current
                },
                HtmlTableAction::DeleteRow { row } => {
                    &&& edit == TableEdit::DeleteRow && rows > 1
                    &&& row == current.row
                    &&& step.target.column == current.column
                    &&& step.target.row == (if current.row + 1 < rows {
                        current.row as int
                    } else {
                        current.row - 1
                    })
                },
                HtmlTableAction::InsertRow { row, before } => {
                    &&& edit == if before {
                        TableEdit::InsertRowBefore
                    } else {
                        TableEdit::InsertRowAfter
                    }
                    &&& row == current.row
                    &&& step.target.column == current.column
                    &&& step.target.row == row + (if before {
                        0int
                    } else {
                        1
                    })
                },
                HtmlTableAction::EditColumn { column, insert } => {
                    &&& edit == TableEdit::DeleteColumn ==> !insert && columns > 1 && column
                        == current.column && step.target.column == (if current.column + 1
                        < columns {
                        current.column as int
                    } else {
                        current.column - 1
                    })
                    &&& edit == TableEdit::InsertColumnBefore ==> insert && column
                        == current.column && step.target.column == column
                    &&& edit == TableEdit::InsertColumnAfter ==> insert && column
                        == current.column + 1 && step.target.column == column
                    &&& edit == TableEdit::DeleteColumn || edit == TableEdit::InsertColumnBefore
                        || edit == TableEdit::InsertColumnAfter
                    &&& step.target.row == current.row
                },
                HtmlTableAction::AlignColumn { column, alignment } => {
                    &&& column == current.column
                    &&& step.target == current
                    &&& match alignment {
                        Some(HtmlAlignment::Left) => edit == TableEdit::AlignLeft,
                        Some(HtmlAlignment::Center) => edit == TableEdit::AlignCenter,
                        Some(HtmlAlignment::Right) => edit == TableEdit::AlignRight,
                        Some(HtmlAlignment::Justify) => false,
                        None => edit == TableEdit::AlignDefault,
                    }
                },
            }
        }),
{
}

/// The cells of a row, each between the tags of a cell.
pub open spec fn tagged_row(cells: Seq<String>, columns: int, row: int) -> Seq<char> {
    "<tr>"@ + woven(
        Seq::new(
            columns as nat,
            |c: int| "<td>"@ + cells[row * columns + c]@ + "</td>"@,
        ),
        Seq::new((columns - 1) as nat, |c: int| Seq::empty()),
    ) + "</tr>"@
}

proof fn lemma_grid_cells(cells: Seq<String>, first: int, columns: int, count: int)
    requires
        0 < count <= columns,
        0 <= first,
    ensures
        grid_cells(cells, first, first + count) == woven(
            Seq::new(columns as nat, |c: int| "<td>"@ + cells[first + c]@ + "</td>"@).take(count),
            Seq::new((columns - 1) as nat, |c: int| Seq::empty()),
        ),
    decreases count,
{
    let texts = Seq::new(columns as nat, |c: int| "<td>"@ + cells[first + c]@ + "</td>"@);
    let gaps = Seq::new((columns - 1) as nat, |c: int| Seq::<char>::empty());
    let made = grid_cells(cells, first, first + count);
    if count == 1 {
        assert(grid_cells(cells, first, first) =~= Seq::empty());
        assert(texts.take(1)[0] == texts[0]);
        assert(made =~= texts[0]);
    } else {
        lemma_grid_cells(cells, first, columns, count - 1);
        lemma_woven_push(texts, gaps, count);
        assert(gaps[count - 2] =~= Seq::<char>::empty());
        assert(texts[count - 1] == "<td>"@ + cells[first + count - 1]@ + "</td>"@);
        assert(made =~= woven(texts.take(count - 1), gaps) + gaps[count - 2] + texts[count - 1]);
    }
}

/// A grid that is written as an HTML table has its cells row by row.
pub proof fn law_written_html_grid_has_its_cells_in_order(
    cells: Seq<String>,
    columns: int,
    rows: int,
)
    requires
        columns > 0,
        rows > 0,
    ensures
        grid_rows(cells, columns, rows) == woven(
            Seq::new(rows as nat, |r: int| tagged_row(cells, columns, r)),
            Seq::new((rows - 1) as nat, |r: int| Seq::empty()),
        ),
    decreases rows,
{
    let lines = Seq::new(rows as nat, |r: int| tagged_row(cells, columns, r));
    let gaps = Seq::new((rows - 1) as nat, |r: int| Seq::<char>::empty());
    let first = (rows - 1) * columns;
    assert(0 <= first && first + columns == rows * columns) by (nonlinear_arith)
        requires
            first == (rows - 1) * columns,
            rows > 0,
            columns > 0,
    ;
    lemma_grid_cells(cells, first, columns, columns);
    let texts = Seq::new(columns as nat, |c: int| "<td>"@ + cells[first + c]@ + "</td>"@);
    assert(texts.take(columns) =~= texts);
    let row = "<tr>"@ + grid_cells(cells, first, rows * columns) + "</tr>"@;
    assert(row == tagged_row(cells, columns, rows - 1)) by {
        assert(Seq::new(
            columns as nat,
            |c: int| "<td>"@ + cells[(rows - 1) * columns + c]@ + "</td>"@,
        ) =~= texts);
    }
    let made = grid_rows(cells, columns, rows);
    if rows == 1 {
        assert(grid_rows(cells, columns, 0) =~= Seq::empty());
        assert(made =~= row);
    } else {
        law_written_html_grid_has_its_cells_in_order(cells, columns, rows - 1);
        let fewer = Seq::new((rows - 1) as nat, |r: int| tagged_row(cells, columns, r));
        let short = Seq::new((rows - 2) as nat, |r: int| Seq::<char>::empty());
        assert(lines.drop_last() =~= fewer);
        lemma_woven_gaps(fewer, gaps, short);
        assert(lines.last() == row);
        assert(gaps[rows - 2] =~= Seq::<char>::empty());
        assert(made =~= grid_rows(cells, columns, rows - 1) + gaps[rows - 2] + row);
    }
}

/// A text whose line breaks are no longer told apart: a carriage return before a line feed is
/// left out.
pub open spec fn without_returns(text: Seq<char>) -> Seq<char>
    decreases text.len(),
{
    if text.len() == 0 {
        Seq::empty()
    } else if text.len() > 1 && text[0] == '\r' && text[1] == '\n' {
        seq!['\n'] + without_returns(text.skip(2))
    } else {
        seq![text[0]] + without_returns(text.skip(1))
    }
}

/// Whether every line feed has a carriage return before it.
pub open spec fn all_returned(text: Seq<char>) -> bool {
    forall|k: int|
        0 <= k < text.len() && #[trigger] text[k] == '\n' ==> k > 0 && text[k - 1] == '\r'
}

proof fn lemma_with_crlf(text: Seq<char>)
    ensures
        all_returned(with_crlf(text)),
        without_returns(with_crlf(text)) == without_returns(text),
        with_crlf(text).len() > 0 <==> text.len() > 0,
        text.len() > 0 && text[0] != '\n' ==> with_crlf(text)[0] == text[0],
        text.len() > 0 && text[0] == '\n' ==> with_crlf(text)[0] == '\r',
    decreases text.len(),
{
    reveal_strlit("\r\n");
    let made = with_crlf(text);
    if text.len() > 0 {
        let pair = text[0] == '\r' && text.len() > 1 && text[1] == '\n';
        let step: int = if pair {
            2
        } else {
            1
        };
        let tail = text.skip(step);
        assert(text.drop_first() =~= text.skip(1));
        lemma_with_crlf(tail);
        let rest = with_crlf(tail);
        let head = if pair || text[0] == '\n' {
            "\r\n"@
        } else {
            seq![text[0]]
        };
        assert(made == head + rest);
        assert forall|k: int| 0 <= k < made.len() && #[trigger] made[k] == '\n' implies k > 0
            && made[k - 1] == '\r' by {
            if k >= head.len() {
                assert(made[k] == rest[k - head.len()]);
                if k > head.len() {
                    assert(made[k - 1] == rest[k - 1 - head.len()]);
                } else {
                    assert(rest[0] == '\n');
                }
            } else {
                assert(made[k] == head[k]);
            }
        }
        assert(made.skip(head.len() as int) =~= rest);
        if head.len() == 1 {
            assert(made[0] == text[0]);
            if made.len() > 1 && made[0] == '\r' && made[1] == '\n' {
                assert(rest[0] == '\n');
            }
            assert(made.skip(1) =~= rest);
            if text.len() > 1 && text[0] == '\r' && text[1] == '\n' {
                assert(pair);
            }
        } else {
            assert(made[0] == '\r' && made[1] == '\n');
            assert(made.skip(2) =~= rest);
            if text[0] == '\n' {
                assert(!(text.len() > 1 && text[0] == '\r' && text[1] == '\n'));
            }
        }
    }
}

/// A pasted table takes on the line endings of the one it replaces: where that one has
/// carriage returns, every line feed of the pasted one gets one, and else it stays as it is.
/// The line breaks behind the replaced table stay behind it.
pub proof fn law_pasted_table_takes_on_line_endings(pasted: Seq<char>, original: Seq<char>)
    ensures
        exists|body: Seq<char>, behind: Seq<char>|
            {
                &&& with_line_endings(pasted, original) == #[trigger] (body + behind)
                &&& has_crlf(original) ==> all_returned(body) && without_returns(body)
                    == without_returns(pasted)
                &&& !has_crlf(original) ==> body == pasted
                &&& behind.is_suffix_of(original)
                &&& forall|k: int|
                    0 <= k < behind.len() ==> behind[k] == '\r' || behind[k] == '\n'
                &&& behind.len() < original.len() ==> original[original.len() - behind.len() - 1]
                    != '\r' && original[original.len() - behind.len() - 1] != '\n'
            },
{
    let body = if has_crlf(original) {
        with_crlf(pasted)
    } else {
        pasted
    };
    let behind = trailing_breaks(original);
    lemma_with_crlf(pasted);
    lemma_trailing_breaks(original);
    assert(with_line_endings(pasted, original) == body + behind);
}

proof fn lemma_trailing_breaks(text: Seq<char>)
    ensures
        trailing_breaks(text).is_suffix_of(text),
        forall|k: int|
            0 <= k < trailing_breaks(text).len() ==> trailing_breaks(text)[k] == '\r'
                || trailing_breaks(text)[k] == '\n',
        trailing_breaks(text).len() < text.len() ==> text[text.len() - trailing_breaks(text).len()
            - 1] != '\r' && text[text.len() - trailing_breaks(text).len() - 1] != '\n',
    decreases text.len(),
{
    let made = trailing_breaks(text);
    if text.len() > 0 && (text.last() == '\r' || text.last() == '\n') {
        let front = text.drop_last();
        lemma_trailing_breaks(front);
        let before = trailing_breaks(front);
        assert(made =~= before.push(text.last()));
        assert(made =~= text.subrange(text.len() - made.len(), text.len() as int)) by {
            assert(before =~= front.subrange(front.len() - before.len(), front.len() as int));
        }
    } else {
        assert(made =~= text.subrange(text.len() - made.len(), text.len() as int));
    }
}

/// A pasted grid fills as many slots as it has cells, in rows of its own width. One cell that
/// is pasted over selected cells fills the selected rectangle instead.
pub proof fn law_pasted_grid_keeps_its_shape(columns: int, count: int, selections: Selections)
    requires
        0 < columns,
        0 < count,
        count % columns == 0,
        selections.table matches Some(table) ==> table.columns > 0 && table.slots@.len() as int
            % table.columns as int == 0,
    ensures
        ({
            let (width, height) = html_extent(columns, count, selections);
            if count == 1 && selections.table is Some {
                width == selections.table->Some_0.columns && width * height
                    == selections.table->Some_0.slots@.len()
            } else {
                width == columns && width * height == count
            }
        }),
{
    if count == 1 && selections.table is Some {
        let table = selections.table->Some_0;
        vstd::arithmetic::div_mod::lemma_fundamental_div_mod(
            table.slots@.len() as int,
            table.columns as int,
        );
    } else {
        vstd::arithmetic::div_mod::lemma_fundamental_div_mod(count, columns);
    }
}

/// A cell of a table that was read from pasted source stands in the document as far behind
/// the place of the paste as it stands in that source.
pub proof fn law_read_cell_is_behind_the_paste(
    grid: TableGrid,
    address: TableCellAddress,
    base: int,
)
    ensures
        read_cell(grid, address, base) matches Some(at) ==> (grid.owner(
            address.row as int,
            address.column as int,
        ) matches Some(owner) && at - base == grid.cells@[owner as int].start),
        grid.owner(address.row as int, address.column as int) is None ==> read_cell(
            grid,
            address,
            base,
        ) is None,
{
}

} // verus!
