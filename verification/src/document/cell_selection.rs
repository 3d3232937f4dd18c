//! Selecting cells of a table, and selecting them again once they were edited.
use crate::document::error::EditorDocumentError;
use crate::document::session::{committed, unedited, EditorDocument};
use crate::edit::{edit_views, ordered_edits, Edit, EditView, TransactionError};
use crate::grid::{
    law_selected_ranges_are_distinct, rect_owners, selects, SlotRect, SourceSpan, TableCellAddress,
    TableCellSelection, TableGrid,
};
use crate::history::HistoryGroup;
use crate::offset::ByteOffset;
use crate::selection::{
    copy_slots, slots_cover, CaretAffinity, EditorSelection, SelectionError, Selections,
};
use crate::text::boundary;
use vstd::prelude::*;

verus! {

/// The selection of one cell's content.
pub open spec fn cell_selected(cell: SourceSpan) -> EditorSelection {
    EditorSelection {
        anchor: ByteOffset { value: cell.start as u64 },
        focus: ByteOffset { value: cell.end as u64 },
        affinity: CaretAffinity::Downstream,
    }
}

/// Whether every cell begins and ends between characters.
pub open spec fn cells_fit(text: Seq<char>, cells: Seq<SourceSpan>) -> bool {
    forall|k: int|
        0 <= k < cells.len() ==> boundary(text, (#[trigger] cells[k]).start as int) && boundary(
            text,
            cells[k].end as int,
        )
}

/// Selects every cell's content.
fn select_all(text: &str, cells: &Vec<SourceSpan>) -> (r: Option<Vec<EditorSelection>>)
    ensures
        r is Some <==> cells_fit(text@, cells@),
        r matches Some(ranges) ==> ranges@ == cells@.map_values(
            |cell: SourceSpan| cell_selected(cell),
        ) && forall|k: int| 0 <= k < ranges@.len() ==> (#[trigger] ranges@[k]).wf(text@),
{
    let mut ranges: Vec<EditorSelection> = Vec::new();
    let mut i: usize = 0;
    while i < cells.len()
        invariant
            i <= cells@.len(),
            ranges@.len() == i,
            forall|k: int|
                0 <= k < i ==> (#[trigger] ranges@[k]) == cell_selected(cells@[k]) && ranges@[k].wf(
                    text@,
                ),
            forall|k: int|
                0 <= k < i ==> boundary(text@, (#[trigger] cells@[k]).start as int) && boundary(
                    text@,
                    cells@[k].end as int,
                ),
        decreases cells@.len() - i,
    {
        let cell = cells[i];
        let start = ByteOffset::new(cell.start as u64);
        let end = ByteOffset::new(cell.end as u64);
        match EditorSelection::range(text, start, end, CaretAffinity::Downstream) {
            Ok(range) => ranges.push(range),
            Err(_) => {
                assert(!(boundary(text@, cells@[i as int].start as int) && boundary(
                    text@,
                    cells@[i as int].end as int,
                )));
                return None;
            },
        }
        i += 1;
    }
    assert(ranges@ =~= cells@.map_values(|cell: SourceSpan| cell_selected(cell)));
    Some(ranges)
}

/// Whether `selections` are the cells of `found`.
pub open spec fn selections_are(selections: Selections, found: TableCellSelection) -> bool {
    &&& selections.ranges@ == found.ranges@.map_values(|cell: SourceSpan| cell_selected(cell))
    &&& selections.primary == found.primary
    &&& selections.table matches Some(table) && table.columns == found.columns && table.slots@
        == found.slots@
}

/// The slots of a rectangle fill its rows.
proof fn lemma_slots_fit(
    grid: TableGrid,
    rect: SlotRect,
    start: TableCellAddress,
    end: TableCellAddress,
    found: TableCellSelection,
)
    requires
        grid.least_closed(rect, start, end),
        selects(grid, rect, end, found),
    ensures
        slots_cover(found.columns, found.slots@, found.ranges@.len() as int),
{
    law_selected_ranges_are_distinct(grid, rect, end, found);
    let width = rect.last.column - rect.first.column + 1;
    let height = rect.last.row - rect.first.row + 1;
    assert(height * width >= 0) by (nonlinear_arith)
        requires
            height >= 0,
            width >= 0,
    ;
    assert(found.slots@.len() == rect_owners(grid, rect).len());
    vstd::arithmetic::div_mod::lemma_mod_multiples_basic(height, width);
}

/// Whether there are two cells to select between: tables are shown as such, there is one,
/// and a cell of it covers each of the two slots.
pub open spec fn two_cells(
    source_mode: bool,
    grid: Option<&TableGrid>,
    start: Option<TableCellAddress>,
    end: Option<TableCellAddress>,
) -> bool {
    !source_mode && match (grid, start, end) {
        (Some(grid), Some(start), Some(end)) => {
            &&& grid.owner(start.row as int, start.column as int) is Some
            &&& grid.owner(end.row as int, end.column as int) is Some
        },
        _ => false,
    }
}

/// Whether `found` are the cells of the least rectangle of `rect` between two slots.
pub open spec fn between(
    grid: TableGrid,
    start: TableCellAddress,
    end: TableCellAddress,
    rect: SlotRect,
    found: TableCellSelection,
) -> bool {
    grid.least_closed(rect, start, end) && selects(grid, rect, end, found)
}

/// The cells of the least rectangle that holds two slots and splits no merged cell. `grid`
/// is the table around the first place, and `start` and `end` are the slots at both. `None`
/// in source mode, and where a place is in no cell of the table.
pub fn table_cell_selection(
    source_mode: bool,
    grid: Option<&TableGrid>,
    start: Option<TableCellAddress>,
    end: Option<TableCellAddress>,
) -> (r: Option<TableCellSelection>)
    requires
        grid matches Some(table) ==> table.wf(),
    ensures
        r is Some <==> two_cells(source_mode, grid, start, end),
        r matches Some(found) ==> exists|rect: SlotRect| #[trigger]
            between(*grid->Some_0, start->Some_0, end->Some_0, rect, found),
{
    if source_mode {
        return None;
    }
    let table = grid?;
    let from = start?;
    let to = end?;
    let found = table.table_cell_selection_in_grid(from, to)?;
    proof {
        let rect = choose|rect: SlotRect| #[trigger]
            table.least_closed(rect, from, to) && selects(*table, rect, to, found);
        assert(between(*table, from, to, rect, found));
    }
    Some(found)
}

/// Selects the cells of the least rectangle that holds two slots and splits no merged
/// cell. The cell of the second slot is the primary one. Refused in source mode, and where
/// a place is in no cell of the table around the first.
pub fn select_table_cells(
    source_mode: bool,
    text: &str,
    grid: Option<&TableGrid>,
    start: Option<TableCellAddress>,
    end: Option<TableCellAddress>,
) -> (r: Result<Selections, EditorDocumentError>)
    requires
        grid matches Some(table) ==> table.wf(),
    ensures
        match r {
            Ok(selections) => {
                &&& two_cells(source_mode, grid, start, end)
                &&& selections.wf(text@)
                &&& exists|rect: SlotRect, found: TableCellSelection| #[trigger]
                    between(*grid->Some_0, start->Some_0, end->Some_0, rect, found) && cells_fit(
                        text@,
                        found.ranges@,
                    ) && selections_are(selections, found)
            },
            Err(error) => {
                &&& error == EditorDocumentError::Selection(SelectionError::InvalidRange)
                &&& two_cells(source_mode, grid, start, end) ==> exists|
                    rect: SlotRect,
                    found: TableCellSelection,
                | #[trigger]
                    between(*grid->Some_0, start->Some_0, end->Some_0, rect, found) && !cells_fit(
                        text@,
                        found.ranges@,
                    )
            },
        },
{
    let found = match table_cell_selection(source_mode, grid, start, end) {
        Some(found) => found,
        None => return Err(EditorDocumentError::Selection(SelectionError::InvalidRange)),
    };
    let ghost rect = choose|rect: SlotRect| #[trigger]
        between(*grid->Some_0, start->Some_0, end->Some_0, rect, found);
    proof {
        let table = *grid->Some_0;
        lemma_slots_fit(table, rect, start->Some_0, end->Some_0, found);
        law_selected_ranges_are_distinct(table, rect, end->Some_0, found);
        assert(between(table, start->Some_0, end->Some_0, rect, found));
    }
    let ranges = match select_all(text, &found.ranges) {
        Some(ranges) => ranges,
        None => return Err(EditorDocumentError::Selection(SelectionError::InvalidRange)),
    };
    let made = match Selections::new(text, ranges, found.primary) {
        Ok(made) => made,
        Err(error) => return Err(EditorDocumentError::Selection(error)),
    };
    let slots = copy_slots(&found.slots);
    match made.with_table_slots(found.columns, slots) {
        Ok(selections) => Ok(selections),
        Err(error) => Err(EditorDocumentError::Selection(error)),
    }
}

/// Whether every selection is in a cell.
pub open spec fn all_found(addresses: Seq<Option<TableCellAddress>>) -> bool {
    forall|k: int| 0 <= k < addresses.len() ==> (#[trigger] addresses[k]) is Some
}

/// The cells that clearing the selection empties. `found` says of each selection which
/// cell it is in, and `table` whether the first is in a table at all. Only selected
/// cells are cleared this way.
pub fn cells_to_clear(
    selections: &Selections,
    table: bool,
    found: &[Option<TableCellAddress>],
) -> (r: Result<Vec<TableCellAddress>, EditorDocumentError>)
    requires
        found@.len() == selections.ranges@.len(),
    ensures
        if selections.table is None || selections.ranges@.len() == 0 {
            r == Err::<Vec<TableCellAddress>, EditorDocumentError>(
                EditorDocumentError::InvalidTablePaste,
            )
        } else if !table || !all_found(found@) {
            r == Err::<Vec<TableCellAddress>, EditorDocumentError>(
                EditorDocumentError::Selection(SelectionError::InvalidRange),
            )
        } else {
            r is Ok && r->Ok_0@ == found@.map_values(|at: Option<TableCellAddress>| at->Some_0)
        },
{
    if selections.table.is_none() || selections.ranges.len() == 0 {
        return Err(EditorDocumentError::InvalidTablePaste);
    }
    if !table {
        return Err(EditorDocumentError::Selection(SelectionError::InvalidRange));
    }
    let mut out: Vec<TableCellAddress> = Vec::new();
    let mut i: usize = 0;
    while i < found.len()
        invariant
            i <= found@.len(),
            table,
            selections.table is Some,
            selections.ranges@.len() > 0,
            out@.len() == i,
            forall|k: int|
                0 <= k < i ==> (#[trigger] found@[k]) is Some && out@[k] == found@[k]->Some_0,
        decreases found@.len() - i,
    {
        match found[i] {
            Some(at) => out.push(at),
            None => {
                assert(found@[i as int] is None);
                return Err(EditorDocumentError::Selection(SelectionError::InvalidRange));
            },
        }
        i += 1;
    }
    assert(out@ =~= found@.map_values(|at: Option<TableCellAddress>| at->Some_0));
    Ok(out)
}

/// The edits that empty the selected cells: `left[k]` stays of cell `k`, and a cell that
/// is empty is left alone.
pub open spec fn clearing(ranges: Seq<EditorSelection>, left: Seq<String>) -> Seq<EditView>
    decreases ranges.len(),
{
    if ranges.len() == 0 {
        Seq::empty()
    } else {
        let front = clearing(ranges.drop_last(), left);
        let range = ranges.last().ordered();
        if range.start == range.end {
            front
        } else {
            front.push(
                EditView {
                    start: range.start.value as int,
                    end: range.end.value as int,
                    text: left[ranges.len() - 1]@,
                },
            )
        }
    }
}

fn clearing_edits(selections: &Selections, left: &Vec<String>) -> (r: Vec<Edit>)
    requires
        left@.len() == selections.ranges@.len(),
    ensures
        edit_views(r@) == clearing(selections.ranges@, left@),
{
    let ghost ranges = selections.ranges@;
    let mut edits: Vec<Edit> = Vec::new();
    let mut i: usize = 0;
    assert(ranges.take(0) =~= Seq::empty());
    assert(edit_views(edits@) =~= Seq::empty());
    while i < selections.ranges.len()
        invariant
            i <= ranges.len() == left@.len(),
            ranges == selections.ranges@,
            edit_views(edits@) == clearing(ranges.take(i as int), left@),
        decreases ranges.len() - i,
    {
        let ghost before = edits@;
        proof {
            assert(ranges.take(i + 1).drop_last() =~= ranges.take(i as int));
            assert(ranges.take(i + 1).last() == ranges[i as int]);
        }
        let range = selections.ranges[i].ordered_range();
        if range.start != range.end {
            let edit = Edit::new(range, left[i].as_str().to_owned());
            edits.push(edit);
            assert(edit_views(edits@) =~= edit_views(before).push(edit@));
        }
        i += 1;
    }
    assert(ranges.take(ranges.len() as int) =~= ranges);
    edits
}

impl EditorDocument {
    /// Empties the selected cells as one step of its own, and returns their slots, so
    /// that they can be selected again in the table as it is then. `left` holds what stays
    /// of each: nothing in a pipe table, its tags in an HTML table. `None` where the cells
    /// are empty already.
    pub fn clear_table_cells(
        &mut self,
        selections: &Selections,
        table: bool,
        found: &[Option<TableCellAddress>],
        left: &Vec<String>,
    ) -> (r: Result<Option<Vec<TableCellAddress>>, EditorDocumentError>)
        requires
            old(self).buffer.revision.value < u64::MAX,
            found@.len() == selections.ranges@.len(),
            left@.len() == selections.ranges@.len(),
        ensures
            ({
                let edits = clearing(selections.ranges@, left@);
                if selections.table is None || selections.ranges@.len() == 0 {
                    &&& r == Err::<Option<Vec<TableCellAddress>>, EditorDocumentError>(
                        EditorDocumentError::InvalidTablePaste,
                    )
                    &&& *final(self) == *old(self)
                } else if !table || !all_found(found@) {
                    &&& r == Err::<Option<Vec<TableCellAddress>>, EditorDocumentError>(
                        EditorDocumentError::Selection(SelectionError::InvalidRange),
                    )
                    &&& *final(self) == *old(self)
                } else if edits.len() == 0 {
                    &&& r == Ok::<Option<Vec<TableCellAddress>>, EditorDocumentError>(None)
                    &&& unedited(*old(self), *final(self))
                } else if ordered_edits(old(self).buffer.text@, edits) {
                    &&& r matches Ok(Some(cells)) && cells@ == found@.map_values(
                        |at: Option<TableCellAddress>| at->Some_0,
                    )
                    &&& committed(*old(self), *final(self), edits)
                } else {
                    &&& r == Err::<Option<Vec<TableCellAddress>>, EditorDocumentError>(
                        EditorDocumentError::Transaction(TransactionError::InvalidEdit),
                    )
                    &&& unedited(*old(self), *final(self))
                }
            }),
    {
        let cells = match cells_to_clear(selections, table, found) {
            Ok(cells) => cells,
            Err(error) => return Err(error),
        };
        let edits = clearing_edits(selections, left);
        assert(edit_views(edits@).len() == edits@.len());
        if edits.len() == 0 {
            self.history.break_group();
            return Ok(None);
        }
        match self.apply_isolated(edits, HistoryGroup::Deletion) {
            Ok(_) => Ok(Some(cells)),
            Err(error) => Err(error),
        }
    }
}

/// Whether a cell covers every slot.
pub open spec fn all_covered(grid: TableGrid, addresses: Seq<TableCellAddress>) -> bool {
    forall|k: int|
        0 <= k < addresses.len() ==> grid.owner(
            (#[trigger] addresses[k]).row as int,
            addresses[k].column as int,
        ) is Some
}

/// The content of the cell that covers a slot.
pub open spec fn cell_at(grid: TableGrid, address: TableCellAddress) -> SourceSpan {
    grid.cells@[grid.owner(address.row as int, address.column as int)->Some_0 as int]
}

/// Selects cells again once they were emptied: the same slots, in the table as it is
/// now, with the same primary one and the same rectangle.
pub fn reselect_cells(
    text: &str,
    grid: &TableGrid,
    addresses: &Vec<TableCellAddress>,
    primary: usize,
    columns: usize,
    slots: &Vec<Option<usize>>,
) -> (r: Result<Selections, EditorDocumentError>)
    requires
        grid.wf(),
        primary < addresses@.len(),
        slots_cover(columns, slots@, addresses@.len() as int),
    ensures
        ({
            let cells = addresses@.map_values(|at: TableCellAddress| cell_at(*grid, at));
            if all_covered(*grid, addresses@) && cells_fit(text@, cells) {
                &&& r is Ok
                &&& r->Ok_0.wf(text@)
                &&& r->Ok_0.ranges@ == cells.map_values(|cell: SourceSpan| cell_selected(cell))
                &&& r->Ok_0.primary == primary
                &&& r->Ok_0.table matches Some(table) && table.columns == columns && table.slots@
                    == slots@
            } else {
                r == Err::<Selections, EditorDocumentError>(
                    EditorDocumentError::Selection(SelectionError::InvalidRange),
                )
            }
        }),
{
    let mut cells: Vec<SourceSpan> = Vec::new();
    let mut i: usize = 0;
    while i < addresses.len()
        invariant
            i <= addresses@.len(),
            grid.wf(),
            cells@.len() == i,
            forall|k: int|
                0 <= k < i ==> grid.owner(
                    (#[trigger] addresses@[k]).row as int,
                    addresses@[k].column as int,
                ) is Some && cells@[k] == cell_at(*grid, addresses@[k]),
        decreases addresses@.len() - i,
    {
        match grid.visible_cell(addresses[i]) {
            Some(cell) => cells.push(cell),
            None => {
                assert(grid.owner(
                    addresses@[i as int].row as int,
                    addresses@[i as int].column as int,
                ) is None);
                return Err(EditorDocumentError::Selection(SelectionError::InvalidRange));
            },
        }
        i += 1;
    }
    assert(cells@ =~= addresses@.map_values(|at: TableCellAddress| cell_at(*grid, at)));
    let ranges = match select_all(text, &cells) {
        Some(ranges) => ranges,
        None => return Err(EditorDocumentError::Selection(SelectionError::InvalidRange)),
    };
    let made = match Selections::new(text, ranges, primary) {
        Ok(made) => made,
        Err(error) => return Err(EditorDocumentError::Selection(error)),
    };
    let copy = copy_slots(slots);
    match made.with_table_slots(columns, copy) {
        Ok(selections) => Ok(selections),
        Err(error) => Err(EditorDocumentError::Selection(error)),
    }
}

/// Where the caret goes once a table was edited: to the start of the target cell, or
/// where the table starts if there is no such cell. `len` is the length of the text.
pub fn edited_table_caret(
    grid: Option<&TableGrid>,
    target: TableCellAddress,
    table_start: ByteOffset,
    len: ByteOffset,
) -> (r: ByteOffset)
    requires
        grid matches Some(g) ==> g.wf(),
    ensures
        ({
            let anchor = if table_start.value <= len.value {
                table_start
            } else {
                len
            };
            r == (match grid {
                Some(g) => match g.owner(target.row as int, target.column as int) {
                    Some(owner) => ByteOffset { value: g.cells@[owner as int].start as u64 },
                    None => anchor,
                },
                None => anchor,
            })
        }),
{
    let anchor = if table_start.value <= len.value {
        table_start
    } else {
        len
    };
    match grid {
        Some(g) => match g.visible_cell(target) {
            Some(cell) => ByteOffset::new(cell.start as u64),
            None => anchor,
        },
        None => anchor,
    }
}

/// Whether a selection starts in a table, which in source mode is none in HTML.
pub open spec fn in_table_at(
    source_mode: bool,
    in_html: Seq<bool>,
    in_pipe: Seq<bool>,
    k: int,
) -> bool {
    (in_html[k] && !source_mode) || in_pipe[k]
}

/// Whether a pasted grid goes into plain text: no cells are selected, and no selection
/// starts in a table. `in_html` and `in_pipe` say of each whether it starts in an HTML
/// table or a pipe table.
pub fn grid_paste_is_outside_table(
    source_mode: bool,
    selections: &Selections,
    in_html: &[bool],
    in_pipe: &[bool],
) -> (r: bool)
    requires
        in_html@.len() == selections.ranges@.len(),
        in_pipe@.len() == selections.ranges@.len(),
    ensures
        r == (selections.table is None && forall|k: int|
            0 <= k < in_html@.len() ==> !#[trigger] in_table_at(source_mode, in_html@, in_pipe@, k)),
{
    if selections.table.is_some() {
        return false;
    }
    let mut i: usize = 0;
    while i < in_html.len()
        invariant
            i <= in_html@.len() == in_pipe@.len(),
            selections.table is None,
            forall|k: int|
                0 <= k < i ==> !#[trigger] in_table_at(source_mode, in_html@, in_pipe@, k),
        decreases in_html@.len() - i,
    {
        if (in_html[i] && !source_mode) || in_pipe[i] {
            assert(in_table_at(source_mode, in_html@, in_pipe@, i as int));
            return false;
        }
        i += 1;
    }
    true
}

/// Whether the table around the first selection is written in HTML, where it is a table.
/// In source mode there are no HTML tables.
pub fn table_target_is_html(source_mode: bool, html_table: bool, pipe_table: bool) -> (r: Option<
    bool,
>)
    ensures
        r == (if html_table && !source_mode {
            Some(true)
        } else if pipe_table {
            Some(false)
        } else {
            None
        }),
{
    if html_table && !source_mode {
        Some(true)
    } else if pipe_table {
        Some(false)
    } else {
        None
    }
}

/// Clearing replaces every selected cell that is not empty by what stays of it, and touches
/// nothing else: `k` is the number of a selection and `e` that of an edit.
pub proof fn law_cleared_cells_are_the_selected_ones(
    ranges: Seq<EditorSelection>,
    left: Seq<String>,
    k: int,
    e: int,
)
    requires
        0 <= k < ranges.len() <= left.len(),
    ensures
        ranges[k].anchor.value != ranges[k].focus.value ==> exists|m: int|
            0 <= m < clearing(ranges, left).len() && #[trigger] clears(
                clearing(ranges, left)[m],
                ranges[k],
                left[k]@,
            ),
        0 <= e < clearing(ranges, left).len() ==> exists|m: int|
            0 <= m < ranges.len() && #[trigger] clears(
                clearing(ranges, left)[e],
                ranges[m],
                left[m]@,
            ),
    decreases ranges.len(),
{
    let front = ranges.drop_last();
    let before = clearing(front, left);
    let all = clearing(ranges, left);
    let last = ranges.len() - 1;
    if k < last {
        law_cleared_cells_are_the_selected_ones(front, left, k, e);
        assert(front[k] == ranges[k]);
        if ranges[k].anchor.value != ranges[k].focus.value {
            let m = choose|m: int|
                0 <= m < before.len() && #[trigger] clears(before[m], front[k], left[k]@);
            assert(all[m] == before[m]);
            assert(clears(all[m], ranges[k], left[k]@));
        }
    } else if ranges[k].anchor.value != ranges[k].focus.value {
        assert(clears(all[before.len() as int], ranges[k], left[k]@));
    }
    if 0 <= e < before.len() {
        assert(front.len() > 0);
        law_cleared_cells_are_the_selected_ones(front, left, 0, e);
        let m = choose|m: int|
            0 <= m < front.len() && #[trigger] clears(before[e], front[m], left[m]@);
        assert(clears(all[e], ranges[m], left[m]@));
    } else if e == before.len() && e < all.len() {
        assert(clears(all[e], ranges[last], left[last]@));
    }
}

/// Whether an edit replaces what a selection covers, from whichever end it was made.
pub open spec fn clears(edit: EditView, selection: EditorSelection, left: Seq<char>) -> bool {
    let a = selection.anchor.value as int;
    let b = selection.focus.value as int;
    &&& a != b
    &&& edit.text == left
    &&& (edit.start == a && edit.end == b) || (edit.start == b && edit.end == a)
    &&& edit.start < edit.end
}

/// A selected cell is covered from its start to its end, with the caret behind its content.
pub proof fn law_selected_cell_is_covered(cell: SourceSpan)
    requires
        cell.start <= cell.end <= u64::MAX,
    ensures
        cell_selected(cell).anchor.value == cell.start,
        cell_selected(cell).focus.value == cell.end,
        cell_selected(cell).ordered().start.value == cell.start,
        cell_selected(cell).ordered().end.value == cell.end,
{
}

} // verus!
