//! Structural edits of pipe tables.
use crate::edit::{
    edit_views, edited, growth, law_untouched_text_is_kept, ordered_edits, Edit, EditView,
};
use crate::grid::{SourceSpan, TableCellAddress};
use crate::offset::ByteOffset;
use crate::selection::Selections;
use crate::text::{
    before_char, byte_len, contains_char, ends_line, ends_with_newline, has_crlf, lemma_boundary_bounds,
    lemma_boundary_ends, line_ending, line_ending_of, push_repeated, repeated, same_text, slice,
    sliceable, span, trim_char, trim_matches, up_to_char,
};
use vstd::prelude::*;

verus! {

/// A structural change to the table around the caret.
#[derive(Clone, Copy, Debug, PartialEq, Eq, Structural)]
pub enum TableEdit {
    AlignLeft,
    AlignCenter,
    AlignRight,
    AlignDefault,
    InsertColumnBefore,
    InsertColumnAfter,
    DeleteColumn,
    InsertRowBefore,
    InsertRowAfter,
    DeleteRow,
}

/// A pipe table as it stands in the source.
#[derive(Debug)]
pub struct TableBlock {
    /// The whole table.
    pub source: SourceSpan,
    /// The cells of each line: the header, the delimiter line, then the body.
    pub lines: Vec<Vec<SourceSpan>>,
    /// The content of each line.
    pub row_ranges: Vec<SourceSpan>,
    /// What goes away with each line when the line is deleted.
    pub row_sources: Vec<SourceSpan>,
}

/// Whether `inner` lies in `outer` and both can be sliced out of `text`.
pub open spec fn nested(text: Seq<char>, outer: SourceSpan, inner: SourceSpan) -> bool {
    &&& sliceable(text, outer.start as int, outer.end as int)
    &&& sliceable(text, inner.start as int, inner.end as int)
    &&& outer.start <= inner.start
    &&& inner.end <= outer.end
}

/// Whether the spans follow each other without overlap.
pub open spec fn in_order(spans: Seq<SourceSpan>) -> bool {
    forall|i: int, j: int|
        #![trigger spans[i], spans[j]]
        0 <= i < j < spans.len() ==> spans[i].end <= spans[j].start
}

impl TableBlock {
    /// The number of columns.
    pub open spec fn columns(self) -> int {
        self.lines@[1]@.len() as int
    }

    /// The number of rows that are shown: all lines but the delimiter line.
    pub open spec fn visible_rows(self) -> int {
        self.lines@.len() - 1
    }

    /// The line of a visible row.
    pub open spec fn line_of(row: int) -> int {
        if row == 0 {
            0
        } else {
            row + 1
        }
    }

    /// Whether the table describes a rectangle of cells of `text`.
    pub open spec fn wf(self, text: Seq<char>) -> bool {
        &&& self.lines@.len() >= 2
        &&& self.columns() >= 1
        &&& self.row_ranges@.len() == self.lines@.len()
        &&& self.row_sources@.len() == self.lines@.len()
        &&& in_order(self.row_ranges@)
        &&& in_order(self.row_sources@)
        &&& forall|i: int| 0 <= i < self.lines@.len() ==> #[trigger] self.line_wf(text, i)
    }

    /// Whether line `i` holds one cell per column, in order.
    pub open spec fn line_wf(self, text: Seq<char>, i: int) -> bool {
        &&& self.lines@[i]@.len() == self.columns()
        &&& in_order(self.lines@[i]@)
        &&& nested(text, self.source, self.row_ranges@[i])
        &&& nested(text, self.source, self.row_sources@[i])
        &&& forall|c: int|
            0 <= c < self.lines@[i]@.len() ==> nested(
                text,
                self.row_ranges@[i],
                #[trigger] self.lines@[i]@[c],
            )
    }

    /// The source of the cell at `address`, if it is one of the table's.
    pub open spec fn cell(self, address: TableCellAddress) -> Option<SourceSpan> {
        if address.row < self.visible_rows() && address.column < self.columns() {
            Some(self.lines@[Self::line_of(address.row as int)]@[address.column as int])
        } else {
            None
        }
    }

    /// The number of columns.
    pub fn column_count(&self) -> (r: usize)
        requires
            self.lines@.len() >= 2,
        ensures
            r == self.columns(),
    {
        self.lines[1].len()
    }

    /// The number of rows that are shown.
    pub fn visible_row_count(&self) -> (r: usize)
        requires
            self.lines@.len() >= 2,
        ensures
            r == self.visible_rows(),
    {
        self.lines.len() - 1
    }

    /// The source of the cell at `address`, if it is one of the table's.
    pub fn visible_cell(&self, address: TableCellAddress) -> (r: Option<SourceSpan>)
        requires
            exists|text: Seq<char>| self.wf(text),
        ensures
            r == self.cell(address),
    {
        let ghost text = choose|text: Seq<char>| self.wf(text);
        if address.row >= self.visible_row_count() || address.column >= self.column_count() {
            return None;
        }
        let line: usize = if address.row == 0 {
            0
        } else {
            address.row + 1
        };
        assert(self.line_wf(text, line as int));
        Some(self.lines[line][address.column])
    }

    /// A table of `source`, or `None` where the spans do not describe a
    /// rectangle of cells of `text`.
    pub fn new(
        text: &str,
        source: SourceSpan,
        lines: Vec<Vec<SourceSpan>>,
        row_ranges: Vec<SourceSpan>,
        row_sources: Vec<SourceSpan>,
    ) -> (r: Option<TableBlock>)
        ensures
            r == (if (TableBlock { source, lines, row_ranges, row_sources }).wf(text@) {
                Some(TableBlock { source, lines, row_ranges, row_sources })
            } else {
                None
            }),
    {
        let table = TableBlock { source, lines, row_ranges, row_sources };
        if table.is_valid(text) {
            Some(table)
        } else {
            None
        }
    }

    /// Whether the table describes a rectangle of cells of `text`.
    pub fn is_valid(&self, text: &str) -> (r: bool)
        ensures
            r == self.wf(text@),
    {
        if self.lines.len() < 2 || self.lines[1].len() < 1 || self.row_ranges.len()
            != self.lines.len() || self.row_sources.len() != self.lines.len() || !spans_in_order(
            &self.row_ranges,
        ) || !spans_in_order(&self.row_sources) {
            return false;
        }
        let columns = self.lines[1].len();
        let mut i: usize = 0;
        while i < self.lines.len()
            invariant
                i <= self.lines@.len(),
                self.lines@.len() >= 2,
                columns == self.columns(),
                self.row_ranges@.len() == self.lines@.len(),
                self.row_sources@.len() == self.lines@.len(),
                forall|k: int| 0 <= k < i ==> #[trigger] self.line_wf(text@, k),
            decreases self.lines@.len() - i,
        {
            if !self.line_is_valid(text, columns, i) {
                assert(!self.line_wf(text@, i as int));
                return false;
            }
            i += 1;
        }
        true
    }

    fn line_is_valid(&self, text: &str, columns: usize, i: usize) -> (r: bool)
        requires
            i < self.lines@.len(),
            self.lines@.len() >= 2,
            columns == self.columns(),
            self.row_ranges@.len() == self.lines@.len(),
            self.row_sources@.len() == self.lines@.len(),
        ensures
            r == self.line_wf(text@, i as int),
    {
        let line = &self.lines[i];
        if line.len() != columns || !spans_in_order(line) || !span_is_nested(
            text,
            self.source,
            self.row_ranges[i],
        ) || !span_is_nested(text, self.source, self.row_sources[i]) {
            return false;
        }
        let mut c: usize = 0;
        while c < line.len()
            invariant
                c <= line@.len(),
                i < self.lines@.len(),
                *line == self.lines@[i as int],
                self.row_ranges@.len() == self.lines@.len(),
                forall|k: int|
                    0 <= k < c ==> nested(
                        text@,
                        self.row_ranges@[i as int],
                        #[trigger] self.lines@[i as int]@[k],
                    ),
            decreases line@.len() - c,
        {
            if !span_is_nested(text, self.row_ranges[i], line[c]) {
                assert(!nested(
                    text@,
                    self.row_ranges@[i as int],
                    self.lines@[i as int]@[c as int],
                ));
                return false;
            }
            c += 1;
        }
        true
    }
}

fn span_is_nested(text: &str, outer: SourceSpan, inner: SourceSpan) -> (r: bool)
    ensures
        r == nested(text@, outer, inner),
{
    outer.start <= outer.end && inner.start <= inner.end && outer.start <= inner.start && inner.end
        <= outer.end && text.is_char_boundary(outer.start) && text.is_char_boundary(outer.end)
        && text.is_char_boundary(inner.start) && text.is_char_boundary(inner.end)
}

fn spans_in_order(spans: &Vec<SourceSpan>) -> (r: bool)
    ensures
        r == in_order(spans@),
{
    let mut j: usize = 0;
    while j < spans.len()
        invariant
            j <= spans@.len(),
            forall|a: int, b: int|
                #![trigger spans@[a], spans@[b]]
                0 <= a < b < j ==> spans@[a].end <= spans@[b].start,
        decreases spans@.len() - j,
    {
        let mut i: usize = 0;
        while i < j
            invariant
                i <= j < spans@.len(),
                forall|a: int| 0 <= a < i ==> (#[trigger] spans@[a]).end <= spans@[j as int].start,
            decreases j - i,
        {
            if spans[i].end > spans[j].start {
                return false;
            }
            i += 1;
        }
        j += 1;
    }
    true
}

/// The edits of a structural command, and where the caret goes.
#[derive(Debug)]
pub struct TableEditPlan {
    pub edits: Vec<Edit>,
    pub table_start: ByteOffset,
    pub target: TableCellAddress,
}

/// The delimiter cell `dashes`, marked for the alignment that `edit` asks for.
pub open spec fn aligned(edit: TableEdit, dashes: Seq<char>) -> Seq<char> {
    match edit {
        TableEdit::AlignLeft => ":"@ + dashes,
        TableEdit::AlignCenter => ":"@ + dashes + ":"@,
        TableEdit::AlignRight => dashes + ":"@,
        _ => dashes,
    }
}

/// Whether line `i` has no pipe outside its cells.
pub open spec fn lacks_outer_pipes(text: Seq<char>, table: TableBlock, i: int) -> bool {
    let cells = table.lines@[i]@;
    let physical = table.row_ranges@[i];
    &&& !span(text, physical.start as int, cells.first().start as int).contains('|')
    &&& !span(text, cells.last().end as int, physical.end as int).contains('|')
}

/// What a column command does to line `i`.
pub open spec fn column_edit(
    text: Seq<char>,
    table: TableBlock,
    edit: TableEdit,
    column: int,
    i: int,
) -> EditView {
    let cells = table.lines@[i]@;
    let cell = cells[column];
    match edit {
        TableEdit::InsertColumnBefore => EditView {
            start: cell.start as int,
            end: cell.start as int,
            text: if i == 1 {
                "--- | "@
            } else {
                " | "@
            },
        },
        TableEdit::InsertColumnAfter => EditView {
            start: cell.end as int,
            end: cell.end as int,
            text: if i == 1 {
                " | ---"@
            } else {
                " | "@
            },
        },
        _ => if cells.len() == 2 && lacks_outer_pipes(text, table, i) {
            let kept = cells[1 - column];
            EditView {
                start: cells[0].start as int,
                end: cells[1].end as int,
                text: "| "@ + span(text, kept.start as int, kept.end as int) + " |"@,
            }
        } else if column + 1 < cells.len() {
            EditView {
                start: cell.start as int,
                end: cells[column + 1].start as int,
                text: Seq::empty(),
            }
        } else {
            EditView {
                start: cells[column - 1].end as int,
                end: cell.end as int,
                text: Seq::empty(),
            }
        },
    }
}

/// Where the new line goes when it is to become line `line`.
pub open spec fn row_insertion_point(table: TableBlock, line: int) -> int {
    if line < table.row_ranges@.len() {
        table.row_ranges@[line].start as int
    } else {
        table.source.end as int
    }
}

/// The empty line that a row command adds at `at`: the container's prefix, one
/// blank cell per column, and a line ending on the side that lacks one.
pub open spec fn inserted_row(text: Seq<char>, table: TableBlock, at: int) -> Seq<char> {
    let prefix = before_char(
        span(text, table.row_ranges@[1].start as int, table.lines@[1]@[0].start as int),
        '|',
    );
    let eol = line_ending(span(text, table.source.start as int, table.source.end as int));
    let ended = ends_line(span(text, 0, at));
    let at_end = at == table.source.end;
    (if at_end && !ended {
        eol
    } else {
        Seq::empty()
    }) + prefix + "|"@ + repeated("  |"@, table.columns() as nat) + (if !at_end || ended {
        eol
    } else {
        Seq::empty()
    })
}

/// What a [`TableEditPlan`] says of the table that it was made for.
pub struct PlanView {
    pub edits: Seq<EditView>,
    pub target: TableCellAddress,
}

/// The edits and the caret's cell that `edit` gives at `current`, or `None`
/// where the command does not apply.
pub open spec fn planned(
    text: Seq<char>,
    table: TableBlock,
    current: TableCellAddress,
    edit: TableEdit,
) -> Option<PlanView> {
    let column = current.column as int;
    match edit {
        TableEdit::AlignLeft
        | TableEdit::AlignCenter
        | TableEdit::AlignRight
        | TableEdit::AlignDefault => {
            let cell = table.lines@[1]@[column];
            let before = span(text, cell.start as int, cell.end as int);
            let after = aligned(edit, trim_char(before, ':'));
            if after == before {
                None
            } else {
                Some(PlanView { edits: seq![EditView { start: cell.start as int, end: cell.end as int, text: after }], target: current })
            }
        },
        TableEdit::InsertColumnBefore | TableEdit::InsertColumnAfter | TableEdit::DeleteColumn => {
            if edit == TableEdit::DeleteColumn && table.columns() == 1 {
                Some(PlanView { edits: seq![
                            EditView {
                                start: table.source.start as int,
                                end: table.source.end as int,
                                text: Seq::empty(),
                            },
                        ], target: current })
            } else {
                let target = match edit {
                    TableEdit::InsertColumnAfter => column + 1,
                    TableEdit::DeleteColumn => if column < table.columns() - 2 {
                        column
                    } else {
                        table.columns() - 2
                    },
                    _ => column,
                };
                Some(PlanView { edits: Seq::new(
                            table.lines@.len(),
                            |i: int| column_edit(text, table, edit, column, i),
                        ), target: TableCellAddress { row: current.row, column: target as usize } })
            }
        },
        TableEdit::DeleteRow => {
            if current.row == 0 {
                None
            } else {
                let row = table.row_sources@[current.row + 1];
                let target = if current.row < table.visible_rows() - 2 {
                    current.row as int
                } else {
                    table.visible_rows() - 2
                };
                Some(PlanView { edits: seq![
                            EditView {
                                start: row.start as int,
                                end: row.end as int,
                                text: Seq::empty(),
                            },
                        ], target: TableCellAddress { row: target as usize, column: current.column } })
            }
        },
        TableEdit::InsertRowBefore | TableEdit::InsertRowAfter => {
            if current.row == 0 && edit == TableEdit::InsertRowBefore {
                None
            } else {
                let line = if edit == TableEdit::InsertRowBefore {
                    current.row + 1
                } else {
                    current.row + 2
                };
                let at = row_insertion_point(table, line);
                Some(PlanView { edits: seq![EditView { start: at, end: at, text: inserted_row(text, table, at) }], target: TableCellAddress { row: (line - 1) as usize, column: current.column } })
            }
        },
    }
}

/// The edits of a structural command can all be made.
pub proof fn law_planned_edits_apply(
    text: Seq<char>,
    table: TableBlock,
    current: TableCellAddress,
    edit: TableEdit,
)
    requires
        table.wf(text),
        table.cell(current) is Some,
    ensures
        planned(text, table, current, edit) matches Some(plan) ==> ordered_edits(text, plan.edits),
{
    if let Some(plan) = planned(text, table, current, edit) {
        let edits = plan.edits;
        let column = current.column as int;
        assert(table.line_wf(text, 0));
        assert(table.line_wf(text, 1));
        let structural = edit == TableEdit::InsertColumnBefore || edit
            == TableEdit::InsertColumnAfter || edit == TableEdit::DeleteColumn;
        if structural && edits.len() > 1 {
            assert forall|i: int| 0 <= i < edits.len() implies {
                &&& sliceable(text, (#[trigger] edits[i]).start, edits[i].end)
                &&& table.row_ranges@[i].start <= edits[i].start
                &&& edits[i].end <= table.row_ranges@[i].end
            } by {
                lemma_column_edit(text, table, edit, column, i);
            }
            assert forall|i: int, j: int|
                #![trigger edits[i], edits[j]]
                0 <= i < j < edits.len() implies edits[i].end <= edits[j].start by {
                assert(table.row_ranges@[i].end <= table.row_ranges@[j].start);
            }
        } else {
            match edit {
                TableEdit::DeleteRow => {
                    assert(table.line_wf(text, current.row + 1));
                },
                TableEdit::InsertRowBefore => {
                    assert(table.line_wf(text, current.row + 1));
                },
                TableEdit::InsertRowAfter => {
                    if current.row + 2 < table.lines@.len() {
                        assert(table.line_wf(text, current.row + 2));
                    }
                },
                _ => {},
            }
        }
    }
}

proof fn lemma_column_edit(
    text: Seq<char>,
    table: TableBlock,
    edit: TableEdit,
    column: int,
    i: int,
)
    requires
        table.wf(text),
        0 <= column < table.columns(),
        0 <= i < table.lines@.len(),
        edit == TableEdit::InsertColumnBefore || edit == TableEdit::InsertColumnAfter || (edit
            == TableEdit::DeleteColumn && table.columns() > 1),
    ensures
        ({
            let made = column_edit(text, table, edit, column, i);
            &&& sliceable(text, made.start, made.end)
            &&& table.row_ranges@[i].start <= made.start
            &&& made.end <= table.row_ranges@[i].end
        }),
{
    assert(table.line_wf(text, i));
    let cells = table.lines@[i]@;
    assert(nested(text, table.row_ranges@[i], cells[column]));
    if edit == TableEdit::DeleteColumn {
        if cells.len() == 2 {
            assert(nested(text, table.row_ranges@[i], cells[0]));
            assert(nested(text, table.row_ranges@[i], cells[1]));
            assert(cells[0].end <= cells[1].start);
        }
        if column + 1 < cells.len() {
            assert(nested(text, table.row_ranges@[i], cells[column + 1]));
            assert(cells[column].end <= cells[column + 1].start);
        } else {
            assert(nested(text, table.row_ranges@[i], cells[column - 1]));
            assert(cells[column - 1].end <= cells[column].start);
        }
    }
}

/// Whether `r` is the plan of `edit` at the cell `current`. There is none with several
/// selections: a command on a table has one cell that owns it. Nor is there one where the
/// selection leaves the cell, or the command does not apply there.
pub open spec fn pipe_planned(
    text: Seq<char>,
    table: TableBlock,
    current: TableCellAddress,
    selections: Selections,
    edit: TableEdit,
    r: Option<TableEditPlan>,
) -> bool {
    let selection = selections.ranges@[selections.primary as int].ordered();
    let inside = match table.cell(current) {
        Some(owner) => owner.start <= selection.start.value && selection.end.value <= owner.end,
        None => false,
    };
    let wanted = planned(text, table, current, edit);
    &&& r is Some <==> selections.ranges@.len() == 1 && inside && wanted is Some
    &&& r matches Some(plan) ==> {
        &&& edit_views(plan.edits@) == wanted->0.edits
        &&& plan.target == wanted->0.target
        &&& plan.table_start.value == table.source.start
        &&& ordered_edits(text, edit_views(plan.edits@))
    }
}

/// Plans `edit` for the cell `current` that holds the only selection. `None` with several
/// selections, where the selection leaves the cell, and where the command does not apply
/// there.
pub fn table_edit_plan(
    source: &str,
    table: &TableBlock,
    current: TableCellAddress,
    selections: &Selections,
    edit: TableEdit,
) -> (r: Option<TableEditPlan>)
    requires
        table.wf(source@),
        selections.primary < selections.ranges@.len(),
    ensures
        selections.ranges@.len() > 1 ==> r is None,
        pipe_planned(source@, *table, current, *selections, edit, r),
{
    if selections.ranges.len() != 1 {
        return None;
    }
    let selection = selections.ranges[selections.primary].ordered_range();
    let owner = match table.visible_cell(current) {
        Some(owner) => owner,
        None => {
            return None;
        },
    };
    if selection.start.value < owner.start as u64 || selection.end.value > owner.end as u64 {
        return None;
    }
    proof {
        law_planned_edits_apply(source@, *table, current, edit);
    }
    let table_start = ByteOffset::new(table.source.start as u64);
    let columns: usize = table.column_count();
    let lines: usize = table.lines.len();
    match edit {
        TableEdit::AlignLeft
        | TableEdit::AlignCenter
        | TableEdit::AlignRight
        | TableEdit::AlignDefault => {
            let made = align_cell(source, table, current.column, edit)?;
            let mut edits: Vec<Edit> = Vec::new();
            edits.push(made);
            assert(edit_views(edits@) =~= seq![made@]);
            Some(TableEditPlan { edits, table_start, target: current })
        },
        TableEdit::InsertColumnBefore | TableEdit::InsertColumnAfter | TableEdit::DeleteColumn => {
            if edit == TableEdit::DeleteColumn && columns == 1 {
                let mut edits: Vec<Edit> = Vec::new();
                edits.push(Edit::replace(table.source.start, table.source.end, String::new()));
                assert(edit_views(edits@) =~= planned(source@, *table, current, edit)->0.edits);
                return Some(TableEditPlan { edits, table_start, target: current });
            }
            let edits = column_edits(source, table, current.column, edit);
            let column: usize = match edit {
                TableEdit::InsertColumnAfter => current.column + 1,
                TableEdit::DeleteColumn => if current.column < columns - 2 {
                    current.column
                } else {
                    columns - 2
                },
                _ => current.column,
            };
            Some(
                TableEditPlan {
                    edits,
                    table_start,
                    target: TableCellAddress::new(current.row, column),
                },
            )
        },
        TableEdit::DeleteRow => {
            if current.row == 0 {
                return None;
            }
            let row = table.row_sources[current.row + 1];
            let mut edits: Vec<Edit> = Vec::new();
            edits.push(Edit::replace(row.start, row.end, String::new()));
            assert(edit_views(edits@) =~= planned(source@, *table, current, edit)->0.edits);
            let kept: usize = lines - 3;
            let target = TableCellAddress::new(
                if current.row < kept {
                    current.row
                } else {
                    kept
                },
                current.column,
            );
            Some(TableEditPlan { edits, table_start, target })
        },
        TableEdit::InsertRowBefore | TableEdit::InsertRowAfter => {
            if current.row == 0 && edit == TableEdit::InsertRowBefore {
                return None;
            }
            let line: usize = if edit == TableEdit::InsertRowBefore {
                current.row + 1
            } else {
                current.row + 2
            };
            let made = insert_row(source, table, line);
            let mut edits: Vec<Edit> = Vec::new();
            edits.push(made);
            assert(edit_views(edits@) =~= planned(source@, *table, current, edit)->0.edits);
            Some(
                TableEditPlan {
                    edits,
                    table_start,
                    target: TableCellAddress::new(line - 1, current.column),
                },
            )
        },
    }
}

fn align_cell(source: &str, table: &TableBlock, column: usize, edit: TableEdit) -> (r: Option<Edit>)
    requires
        table.wf(source@),
        column < table.columns(),
    ensures
        ({
            let cell = table.lines@[1]@[column as int];
            let before = span(source@, cell.start as int, cell.end as int);
            let after = aligned(edit, trim_char(before, ':'));
            &&& r is Some <==> after != before
            &&& r matches Some(made) ==> made@ == (EditView {
                start: cell.start as int,
                end: cell.end as int,
                text: after,
            })
        }),
{
    assert(table.line_wf(source@, 1));
    let cell = table.lines[1][column];
    assert(nested(source@, table.row_ranges@[1], cell));
    let before = slice(source, cell.start, cell.end);
    let dashes = trim_matches(before, ':');
    let mut text = String::new();
    if edit == TableEdit::AlignLeft || edit == TableEdit::AlignCenter {
        text.push_str(":");
    }
    text.push_str(dashes.as_str());
    if edit == TableEdit::AlignCenter || edit == TableEdit::AlignRight {
        text.push_str(":");
    }
    assert(text@ =~= aligned(edit, dashes@));
    if same_text(text.as_str(), before) {
        None
    } else {
        Some(Edit::replace(cell.start, cell.end, text))
    }
}

fn column_edits(source: &str, table: &TableBlock, column: usize, edit: TableEdit) -> (r: Vec<Edit>)
    requires
        table.wf(source@),
        column < table.columns(),
        edit == TableEdit::InsertColumnBefore || edit == TableEdit::InsertColumnAfter || (edit
            == TableEdit::DeleteColumn && table.columns() > 1),
    ensures
        edit_views(r@) == Seq::new(
            table.lines@.len(),
            |i: int| column_edit(source@, *table, edit, column as int, i),
        ),
{
    let mut edits: Vec<Edit> = Vec::new();
    let mut i: usize = 0;
    while i < table.lines.len()
        invariant
            table.wf(source@),
            column < table.columns(),
            edit == TableEdit::InsertColumnBefore || edit == TableEdit::InsertColumnAfter || (edit
                == TableEdit::DeleteColumn && table.columns() > 1),
            i <= table.lines@.len(),
            edits@.len() == i,
            forall|k: int|
                0 <= k < i ==> (#[trigger] edits@[k])@ == column_edit(
                    source@,
                    *table,
                    edit,
                    column as int,
                    k,
                ),
        decreases table.lines@.len() - i,
    {
        assert(table.line_wf(source@, i as int));
        let cells = &table.lines[i];
        let cell = cells[column];
        let made = match edit {
            TableEdit::InsertColumnBefore => Edit::replace(
                cell.start,
                cell.start,
                (if i == 1 {
                    "--- | "
                } else {
                    " | "
                }).to_owned(),
            ),
            TableEdit::InsertColumnAfter => Edit::replace(
                cell.end,
                cell.end,
                (if i == 1 {
                    " | ---"
                } else {
                    " | "
                }).to_owned(),
            ),
            _ => delete_cell(source, table, column, i),
        };
        edits.push(made);
        i += 1;
    }
    assert(edit_views(edits@) =~= Seq::new(
        table.lines@.len(),
        |i: int| column_edit(source@, *table, edit, column as int, i),
    ));
    edits
}

// A two-column line may omit both outer pipes. With one column left it needs
// explicit ones, or it would read as a heading or a list item.
fn delete_cell(source: &str, table: &TableBlock, column: usize, i: usize) -> (r: Edit)
    requires
        table.wf(source@),
        column < table.columns(),
        table.columns() > 1,
        i < table.lines@.len(),
    ensures
        r@ == column_edit(source@, *table, TableEdit::DeleteColumn, column as int, i as int),
{
    assert(table.line_wf(source@, i as int));
    let cells = &table.lines[i];
    let physical = table.row_ranges[i];
    let cell = cells[column];
    let first = cells[0];
    let last = cells[cells.len() - 1];
    assert(nested(source@, physical, first));
    assert(nested(source@, physical, last));
    if cells.len() == 2 && !contains_char(slice(source, physical.start, first.start), '|')
        && !contains_char(slice(source, last.end, physical.end), '|') {
        let kept = cells[1 - column];
        assert(nested(source@, physical, kept));
        let mut text = String::new();
        text.push_str("| ");
        text.push_str(slice(source, kept.start, kept.end));
        text.push_str(" |");
        assert(text@ =~= "| "@ + span(source@, kept.start as int, kept.end as int) + " |"@);
        return Edit::replace(first.start, last.end, text);
    }
    if column + 1 < cells.len() {
        Edit::replace(cell.start, cells[column + 1].start, String::new())
    } else {
        Edit::replace(cells[column - 1].end, cell.end, String::new())
    }
}

fn insert_row(source: &str, table: &TableBlock, line: usize) -> (r: Edit)
    requires
        table.wf(source@),
        1 < line <= table.lines@.len(),
    ensures
        ({
            let at = row_insertion_point(*table, line as int);
            r@ == (EditView { start: at, end: at, text: inserted_row(source@, *table, at) })
        }),
{
    assert(table.line_wf(source@, 1));
    let continuation = table.row_ranges[1];
    let first = table.lines[1][0];
    assert(nested(source@, continuation, first));
    let prefix = up_to_char(slice(source, continuation.start, first.start), '|');
    let end = table.source.end;
    let eol = line_ending_of(slice(source, table.source.start, end));
    let at: usize = if line < table.row_ranges.len() {
        assert(table.line_wf(source@, line as int));
        table.row_ranges[line].start
    } else {
        end
    };
    proof {
        lemma_boundary_ends(source@);
        lemma_boundary_bounds(source@, at as int);
    }
    let ended = ends_with_newline(slice(source, 0, at));
    let mut text = String::new();
    if at == end && !ended {
        text.push_str(eol);
    }
    text.push_str(prefix.as_str());
    text.push_str("|");
    push_repeated(&mut text, "  |", table.column_count());
    if at != end || ended {
        text.push_str(eol);
    }
    assert(text@ =~= inserted_row(source@, *table, at as int));
    Edit::replace(at, at, text)
}

/// Whether what goes away with each line holds the line.
pub open spec fn sources_hold_lines(table: TableBlock) -> bool {
    forall|k: int|
        0 <= k < table.lines@.len() ==> (#[trigger] table.row_sources@[k]).start
            <= table.row_ranges@[k].start && table.row_ranges@[k].end <= table.row_sources@[k].end
}

/// Whether a piece of `text` reads the same after `edits`, `moved` bytes further on.
pub open spec fn reads_on(
    text: Seq<char>,
    edits: Seq<EditView>,
    piece: SourceSpan,
    moved: int,
) -> bool {
    let made = edited(text, edits);
    &&& sliceable(made, piece.start + moved, piece.end + moved)
    &&& span(made, piece.start + moved, piece.end + moved) == span(
        text,
        piece.start as int,
        piece.end as int,
    )
}

/// Whether the only selection lies in `cell`.
pub open spec fn selected_in(selections: Selections, cell: SourceSpan) -> bool {
    let selection = selections.ranges@[selections.primary as int].ordered();
    &&& selections.ranges@.len() == 1
    &&& cell.start <= selection.start.value
    &&& selection.end.value <= cell.end
}

/// Deleting a row removes the line that the selection is in, and nothing else: `line` and
/// `column` name a cell of any other line, which reads as before. The header and the
/// delimiter line are never deleted. The caret goes to the row that took the place, or to
/// the last one.
pub proof fn law_deleted_row_is_the_selected_one(
    text: Seq<char>,
    table: TableBlock,
    current: TableCellAddress,
    selections: Selections,
    r: Option<TableEditPlan>,
    line: int,
    column: int,
)
    requires
        table.wf(text),
        sources_hold_lines(table),
        pipe_planned(text, table, current, selections, TableEdit::DeleteRow, r),
        r is Some,
        0 <= line < table.lines@.len(),
        line != current.row + 1,
        0 <= column < table.lines@[line]@.len(),
    ensures
        ({
            let plan = r->Some_0;
            let edits = edit_views(plan.edits@);
            let gone = table.row_sources@[current.row + 1];
            let cell = table.lines@[line]@[column];
            &&& 2 <= current.row + 1 < table.lines@.len()
            &&& selected_in(selections, table.lines@[current.row + 1]@[current.column as int])
            &&& edits == seq![
                EditView { start: gone.start as int, end: gone.end as int, text: Seq::empty() },
            ]
            &&& line < current.row + 1 ==> cell.end <= gone.start && reads_on(text, edits, cell, 0)
            &&& line > current.row + 1 ==> gone.end <= cell.start && reads_on(
                text,
                edits,
                cell,
                gone.start - gone.end,
            )
            &&& plan.target.column == current.column
            &&& plan.target.row == (if current.row + 2 < table.lines@.len() {
                current.row as int
            } else {
                current.row - 1
            })
        }),
{
    let edits = edit_views(r->Some_0.edits@);
    let at = current.row + 1;
    let gone = table.row_sources@[at];
    let cell = table.lines@[line]@[column];
    assert(table.line_wf(text, at));
    assert(table.line_wf(text, line));
    assert(nested(text, table.row_ranges@[line], cell));
    assert(table.row_sources@[line].start <= table.row_ranges@[line].start);
    law_planned_edits_apply(text, table, current, TableEdit::DeleteRow);
    let empty = Seq::<EditView>::empty();
    assert(growth(empty) == 0);
    assert(edits.take(0) =~= empty);
    if line < at {
        assert(table.row_sources@[line].end <= gone.start);
        law_untouched_text_is_kept(text, edits, 0, cell.start as int, cell.end as int);
    } else {
        assert(gone.end <= table.row_sources@[line].start);
        assert(edits.take(1) =~= edits);
        assert(edits.drop_last() =~= empty);
        lemma_no_text();
        law_untouched_text_is_kept(text, edits, 1, cell.start as int, cell.end as int);
    }
}

proof fn lemma_no_text()
    ensures
        byte_len(Seq::<char>::empty()) == 0,
{
    assert(vstd::utf8::encode_utf8(Seq::<char>::empty()) =~= Seq::<u8>::empty());
}

/// Whether a text is a line ending.
pub open spec fn line_end(text: Seq<char>) -> bool {
    text == seq!['\n'] || text == seq!['\r', '\n']
}

/// How often a character stands in a text.
pub open spec fn times(text: Seq<char>, c: char) -> nat {
    text.filter(|d: char| d == c).len()
}

/// Whether `added` is a line of its own with `columns` empty cells: pipes with blanks between
/// them, behind what stands before the first pipe of the line `other`. Its line ending
/// stands before it where `last` says that no line ending stands there yet, else behind it.
pub open spec fn is_empty_row(
    added: Seq<char>,
    other: Seq<char>,
    columns: int,
    ending: Seq<char>,
    last: bool,
) -> bool {
    exists|prefix: Seq<char>, cells: Seq<char>|
        {
            &&& added == if last {
                ending + #[trigger] (prefix + cells)
            } else {
                (prefix + cells) + ending
            }
            &&& prefix.is_prefix_of(other)
            &&& !prefix.contains('|')
            &&& prefix.len() < other.len() ==> other[prefix.len() as int] == '|'
            &&& cells.len() > 0 && cells[0] == '|' && cells.last() == '|'
            &&& forall|k: int| 0 <= k < cells.len() ==> cells[k] == '|' || cells[k] == ' '
            &&& times(cells, '|') == columns + 1
        }
}

/// What stands before the first `stop`.
pub proof fn lemma_before_char(text: Seq<char>, stop: char)
    ensures
        before_char(text, stop).is_prefix_of(text),
        !before_char(text, stop).contains(stop),
        before_char(text, stop).len() < text.len() ==> text[before_char(text, stop).len() as int]
            == stop,
    decreases text.len(),
{
    let made = before_char(text, stop);
    if text.len() > 0 && text[0] != stop {
        let tail = text.drop_first();
        let rest = before_char(tail, stop);
        lemma_before_char(tail, stop);
        assert(made =~= seq![text[0]] + rest);
        assert(made =~= text.subrange(0, made.len() as int)) by {
            assert(rest =~= tail.subrange(0, rest.len() as int));
            assert forall|k: int| 0 <= k < made.len() implies made[k] == text[k] by {
                if k > 0 {
                    assert(made[k] == rest[k - 1]);
                    assert(rest[k - 1] == tail[k - 1]);
                }
            }
        }
        assert(!made.contains(stop)) by {
            if made.contains(stop) {
                let k = choose|k: int| 0 <= k < made.len() && made[k] == stop;
                assert(rest[k - 1] == stop);
            }
        }
        if made.len() < text.len() {
            assert(tail[rest.len() as int] == text[made.len() as int]);
        }
    } else {
        assert(made =~= text.subrange(0, 0));
    }
}

proof fn lemma_times_add(a: Seq<char>, b: Seq<char>, c: char)
    ensures
        times(a + b, c) == times(a, c) + times(b, c),
{
    let f = |d: char| d == c;
    Seq::filter_distributes_over_add(a, b, f);
}

proof fn lemma_empty_cells(columns: nat)
    ensures
        ({
            let cells = "|"@ + repeated("  |"@, columns);
            &&& cells.len() > 0 && cells[0] == '|' && cells.last() == '|'
            &&& forall|k: int| 0 <= k < cells.len() ==> cells[k] == '|' || cells[k] == ' '
            &&& times(cells, '|') == columns + 1
        }),
    decreases columns,
{
    reveal_strlit("|");
    reveal_strlit("  |");
    let one = "|"@;
    let unit = "  |"@;
    let f = |d: char| d == '|';
    reveal(Seq::filter);
    assert(one =~= seq!['|']);
    assert(one.drop_last() =~= Seq::<char>::empty());
    assert(one.drop_last().filter(f) =~= Seq::<char>::empty());
    assert(one.filter(f) =~= seq!['|']);
    if columns == 0 {
        assert(one + repeated(unit, 0) =~= one);
    } else {
        let fewer = (columns - 1) as nat;
        lemma_empty_cells(fewer);
        let before = one + repeated(unit, fewer);
        let cells = one + repeated(unit, columns);
        assert(cells =~= before + unit);
        let blanks = seq![' ', ' '];
        assert(unit =~= blanks + seq!['|']);
        let blank = seq![' '];
        assert(blanks =~= blank + blank);
        assert(blank.drop_last() =~= Seq::<char>::empty());
        assert(blank.filter(f) =~= Seq::<char>::empty());
        lemma_times_add(blank, blank, '|');
        lemma_times_add(blanks, seq!['|'], '|');
        assert(one == seq!['|']);
        lemma_times_add(before, unit, '|');
        assert forall|k: int| 0 <= k < cells.len() implies cells[k] == '|' || cells[k] == ' ' by {
            if k < before.len() {
                assert(cells[k] == before[k]);
            } else {
                assert(cells[k] == unit[k - before.len()]);
            }
        }
        assert(cells[0] == before[0]);
    }
}

/// The line that a new row becomes.
pub open spec fn new_line_number(current: TableCellAddress, edit: TableEdit) -> int {
    if edit == TableEdit::InsertRowBefore {
        current.row + 1
    } else {
        current.row + 2
    }
}

/// A new row stands right before or right behind the line that the selection is in: `line`
/// and `column` name any cell, which reads as before and stands ahead of the new line exactly
/// where its own line does. No row comes before the header, and one behind the header comes
/// behind the delimiter line. The new line has one empty cell for every column, and the caret
/// goes into it.
#[verifier::spinoff_prover]
pub proof fn law_inserted_row_is_beside_the_selected_one(
    text: Seq<char>,
    table: TableBlock,
    current: TableCellAddress,
    selections: Selections,
    edit: TableEdit,
    r: Option<TableEditPlan>,
    line: int,
    column: int,
)
    requires
        table.wf(text),
        edit == TableEdit::InsertRowBefore || edit == TableEdit::InsertRowAfter,
        pipe_planned(text, table, current, selections, edit, r),
        r is Some,
        0 <= line < table.lines@.len(),
        0 <= column < table.lines@[line]@.len(),
    ensures
        ({
            let plan = r->Some_0;
            let edits = edit_views(plan.edits@);
            let own = if current.row == 0 {
                0
            } else {
                current.row + 1
            };
            let place = if edit == TableEdit::InsertRowBefore {
                own
            } else if own == 0 {
                2
            } else {
                own + 1
            };
            let at = edits[0].start;
            let cell = table.lines@[line]@[column];
            let delimiters = table.row_ranges@[1];
            &&& 2 <= place <= table.lines@.len()
            &&& selected_in(selections, table.lines@[own]@[current.column as int])
            &&& edits.len() == 1 && edits[0].end == at
            &&& place < table.lines@.len() ==> at == table.row_ranges@[place].start
            &&& place == table.lines@.len() ==> at == table.source.end
            &&& line < place ==> cell.end <= at && reads_on(text, edits, cell, 0)
            &&& line >= place ==> at <= cell.start && reads_on(
                text,
                edits,
                cell,
                byte_len(edits[0].text),
            )
            &&& exists|ending: Seq<char>| #[trigger]
                line_end(ending) && (ending.len() == 2 <==> has_crlf(
                    span(text, table.source.start as int, table.source.end as int),
                )) && is_empty_row(
                    edits[0].text,
                    span(
                        text,
                        delimiters.start as int,
                        table.lines@[1]@[0].start as int,
                    ),
                    table.lines@[1]@.len() as int,
                    ending,
                    at == table.source.end && !(span(text, 0, at).len() > 0 && span(
                        text,
                        0,
                        at,
                    ).last() == '\n'),
                )
            &&& plan.target == (TableCellAddress {
                row: (place - 1) as usize,
                column: current.column,
            })
        }),
{
    let edits = edit_views(r->Some_0.edits@);
    let place = new_line_number(current, edit);
    let at = edits[0].start;
    let cell = table.lines@[line]@[column];
    assert(table.line_wf(text, 0));
    assert(table.line_wf(text, 1));
    assert(table.line_wf(text, line));
    assert(nested(text, table.row_ranges@[line], cell));
    law_planned_edits_apply(text, table, current, edit);
    assert(edits.take(0) =~= Seq::<EditView>::empty());
    assert(edits.take(1) =~= edits);
    assert(edits.drop_last() =~= Seq::<EditView>::empty());
    if place < table.lines@.len() {
        assert(table.line_wf(text, place));
    }
    if line < place {
        if place < table.lines@.len() {
            assert(table.row_ranges@[line].end <= table.row_ranges@[place].start);
        }
        law_untouched_text_is_kept(text, edits, 0, cell.start as int, cell.end as int);
    } else {
        if line > place {
            assert(table.row_ranges@[place].end <= table.row_ranges@[line].start);
        }
        law_untouched_text_is_kept(text, edits, 1, cell.start as int, cell.end as int);
    }
    let other = span(text, table.row_ranges@[1].start as int, table.lines@[1]@[0].start as int);
    let prefix = before_char(other, '|');
    lemma_before_char(other, '|');
    let ending = line_ending(span(text, table.source.start as int, table.source.end as int));
    reveal_strlit("\n");
    reveal_strlit("\r\n");
    assert("\n"@ =~= seq!['\n']);
    assert("\r\n"@ =~= seq!['\r', '\n']);
    let cells = "|"@ + repeated("  |"@, table.columns() as nat);
    lemma_empty_cells(table.columns() as nat);
    let last = at == table.source.end && !ends_line(span(text, 0, at));
    let added = edits[0].text;
    assert(line_end(ending));
    if last {
        assert(added =~= ending + (prefix + cells));
    } else {
        assert(added =~= (prefix + cells) + ending);
    }
    assert(prefix.is_prefix_of(other) && !prefix.contains('|'));
    assert(is_empty_row(added, other, table.columns(), ending, last));
    assert(table.lines@[1]@.len() == table.columns());
    assert(ending.len() == 2 <==> has_crlf(
        span(text, table.source.start as int, table.source.end as int),
    ));
    assert(r->Some_0.target == (TableCellAddress {
        row: (place - 1) as usize,
        column: current.column,
    }));
    assert(selected_in(
        selections,
        table.lines@[if current.row == 0 {
            0
        } else {
            current.row + 1
        }]@[current.column as int],
    ));
}

/// The edits of a column command lie in their own lines, one in each.
proof fn lemma_column_edits(
    text: Seq<char>,
    table: TableBlock,
    edit: TableEdit,
    column: int,
    edits: Seq<EditView>,
    line: int,
    start: int,
    end: int,
    behind: bool,
)
    requires
        table.wf(text),
        0 <= column < table.columns(),
        edit == TableEdit::InsertColumnBefore || edit == TableEdit::InsertColumnAfter || (edit
            == TableEdit::DeleteColumn && table.columns() > 1),
        edits == Seq::new(
            table.lines@.len(),
            |i: int| column_edit(text, table, edit, column, i),
        ),
        ordered_edits(text, edits),
        0 <= line < table.lines@.len(),
        sliceable(text, start, end),
        table.row_ranges@[line].start <= start,
        end <= table.row_ranges@[line].end,
        if behind {
            edits[line].end <= start
        } else {
            end <= edits[line].start
        },
    ensures
        ({
            let moved = growth(
                edits.take(
                    if behind {
                        line + 1
                    } else {
                        line
                    },
                ),
            );
            let made = edited(text, edits);
            sliceable(made, start + moved, end + moved) && span(made, start + moved, end + moved)
                == span(text, start, end)
        }),
{
    let before = if behind {
        line + 1
    } else {
        line
    };
    assert forall|i: int| 0 <= i < before implies (#[trigger] edits[i]).end <= start by {
        lemma_column_edit(text, table, edit, column, i);
        if i < line {
            assert(table.row_ranges@[i].end <= table.row_ranges@[line].start);
        }
    }
    assert forall|i: int| before <= i < edits.len() implies end <= (#[trigger] edits[i]).start by {
        lemma_column_edit(text, table, edit, column, i);
        if i > line {
            assert(table.row_ranges@[line].end <= table.row_ranges@[i].start);
        }
    }
    law_untouched_text_is_kept(text, edits, before, start, end);
}

/// A new column stands right before or right behind the column that the selection is in, in
/// every line of the table: an empty cell, or three dashes in the delimiter line, parted by a
/// pipe from the selected column's cell. `line` and `column` name any cell, which reads as
/// before and stands ahead of the new one in its line exactly where its column does.
pub proof fn law_inserted_column_is_beside_the_selected_one(
    text: Seq<char>,
    table: TableBlock,
    current: TableCellAddress,
    selections: Selections,
    edit: TableEdit,
    r: Option<TableEditPlan>,
    line: int,
    column: int,
)
    requires
        table.wf(text),
        edit == TableEdit::InsertColumnBefore || edit == TableEdit::InsertColumnAfter,
        pipe_planned(text, table, current, selections, edit, r),
        r is Some,
        0 <= line < table.lines@.len(),
        0 <= column < table.lines@[line]@.len(),
    ensures
        ({
            let plan = r->Some_0;
            let edits = edit_views(plan.edits@);
            let own = table.lines@[line]@[current.column as int];
            let cell = table.lines@[line]@[column];
            let dashes = if line == 1 {
                seq!['-', '-', '-']
            } else {
                Seq::empty()
            };
            let bar = seq![' ', '|', ' '];
            let before = edit == TableEdit::InsertColumnBefore;
            let behind = if before {
                current.column <= column
            } else {
                current.column < column
            };
            let row = if current.row == 0 {
                0
            } else {
                current.row + 1
            };
            &&& selected_in(selections, table.lines@[row]@[current.column as int])
            &&& edits.len() == table.lines@.len()
            &&& edits[line].start == edits[line].end
            &&& edits[line].start == if before {
                own.start
            } else {
                own.end
            }
            &&& edits[line].text == if before {
                dashes + bar
            } else {
                bar + dashes
            }
            &&& reads_on(
                text,
                edits,
                cell,
                growth(
                    edits.take(
                        if behind {
                            line + 1
                        } else {
                            line
                        },
                    ),
                ),
            )
            &&& plan.target.row == current.row
            &&& plan.target.column == current.column + (if before {
                0int
            } else {
                1
            })
        }),
{
    let edits = edit_views(r->Some_0.edits@);
    let cells = table.lines@[line]@;
    let cell = cells[column];
    let own = cells[current.column as int];
    assert(table.line_wf(text, line));
    assert(nested(text, table.row_ranges@[line], cell));
    assert(nested(text, table.row_ranges@[line], own));
    reveal_strlit("--- | ");
    reveal_strlit(" | ---");
    reveal_strlit(" | ");
    let bar = seq![' ', '|', ' '];
    assert("--- | "@ =~= seq!['-', '-', '-'] + bar);
    assert(" | ---"@ =~= bar + seq!['-', '-', '-']);
    assert(" | "@ =~= Seq::<char>::empty() + bar);
    assert(" | "@ =~= bar + Seq::<char>::empty());
    assert(table.line_wf(text, 1));
    assert(table.lines@[1].len() == table.lines@[1]@.len());
    let behind = if edit == TableEdit::InsertColumnBefore {
        current.column <= column
    } else {
        current.column < column
    };
    if column < current.column {
        assert(cells[column].end <= cells[current.column as int].start);
    } else if column > current.column {
        assert(cells[current.column as int].end <= cells[column].start);
    }
    lemma_column_edits(
        text,
        table,
        edit,
        current.column as int,
        edits,
        line,
        cell.start as int,
        cell.end as int,
        behind,
    );
}

/// Deleting a column takes the cell of the column that the selection is in out of every line,
/// with the pipe that parts it from its neighbour, and keeps all other cells: `line` and
/// `column` name any cell of another column. A line of two cells without outer pipes gets
/// them around the cell that is left. Deleting the only column removes the table.
pub proof fn law_deleted_column_is_the_selected_one(
    text: Seq<char>,
    table: TableBlock,
    current: TableCellAddress,
    selections: Selections,
    r: Option<TableEditPlan>,
    line: int,
    column: int,
)
    requires
        table.wf(text),
        pipe_planned(text, table, current, selections, TableEdit::DeleteColumn, r),
        r is Some,
        0 <= line < table.lines@.len(),
        0 <= column < table.lines@[line]@.len(),
        column != current.column || table.lines@[line]@.len() == 1,
    ensures
        ({
            let plan = r->Some_0;
            let edits = edit_views(plan.edits@);
            let cells = table.lines@[line]@;
            let own = cells[current.column as int];
            let cell = cells[column];
            let physical = table.row_ranges@[line];
            let bare = cells.len() == 2 && !span(
                text,
                physical.start as int,
                cells[0].start as int,
            ).contains('|') && !span(text, cells[1].end as int, physical.end as int).contains('|');
            let row = if current.row == 0 {
                0
            } else {
                current.row + 1
            };
            &&& selected_in(selections, table.lines@[row]@[current.column as int])
            &&& cells.len() == 1 ==> edits == seq![
                EditView {
                    start: table.source.start as int,
                    end: table.source.end as int,
                    text: Seq::empty(),
                },
            ]
            &&& cells.len() > 1 ==> {
                let made = edits[line];
                &&& edits.len() == table.lines@.len()
                &&& plan.target.row == current.row
                &&& plan.target.column == (if current.column + 1 < cells.len() {
                    current.column as int
                } else {
                    current.column - 1
                })
                &&& bare ==> made.start == cells[0].start && made.end == cells[1].end && made.text
                    == seq!['|', ' '] + span(text, cell.start as int, cell.end as int) + seq![
                    ' ',
                    '|',
                ]
                &&& !bare ==> {
                    &&& made.text.len() == 0
                    &&& made.start <= own.start && own.end <= made.end
                    &&& if current.column + 1 < cells.len() {
                        made.start == own.start && made.end == cells[current.column + 1].start
                    } else {
                        made.start == cells[current.column - 1].end && made.end == own.end
                    }
                    &&& reads_on(
                        text,
                        edits,
                        cell,
                        growth(
                            edits.take(
                                if current.column < column {
                                    line + 1
                                } else {
                                    line
                                },
                            ),
                        ),
                    )
                }
            }
        }),
{
    let edits = edit_views(r->Some_0.edits@);
    let cells = table.lines@[line]@;
    let cell = cells[column];
    let own = cells[current.column as int];
    let physical = table.row_ranges@[line];
    assert(table.line_wf(text, line));
    assert(nested(text, physical, cell));
    assert(nested(text, physical, own));
    reveal_strlit("| ");
    reveal_strlit(" |");
    assert("| "@ =~= seq!['|', ' ']);
    assert(" |"@ =~= seq![' ', '|']);
    if cells.len() > 1 {
        lemma_column_edit(text, table, TableEdit::DeleteColumn, current.column as int, line);
        let bare = cells.len() == 2 && lacks_outer_pipes(text, table, line);
        assert(edits[line] == column_edit(
            text,
            table,
            TableEdit::DeleteColumn,
            current.column as int,
            line,
        ));
        if !bare {
            if current.column + 1 < cells.len() {
                assert(own.end <= cells[current.column + 1].start);
                assert(nested(text, physical, cells[current.column + 1]));
                if current.column + 1 < column {
                    assert(cells[current.column + 1].end <= cell.start);
                }
            } else {
                assert(nested(text, physical, cells[current.column - 1]));
                assert(cells[current.column - 1].end <= own.start);
                if column < current.column - 1 {
                    assert(cell.end <= cells[current.column - 1].start);
                }
            }
            if column < current.column {
                assert(cell.end <= own.start);
            } else {
                assert(own.end <= cell.start);
            }
            lemma_column_edits(
                text,
                table,
                TableEdit::DeleteColumn,
                current.column as int,
                edits,
                line,
                cell.start as int,
                cell.end as int,
                current.column < column,
            );
        }
    }
}

/// What was trimmed off the two ends.
proof fn lemma_trim_char(text: Seq<char>, c: char) -> (r: (Seq<char>, Seq<char>))
    ensures
        ({
            let inner = trim_char(text, c);
            &&& inner.len() > 0 ==> inner[0] != c && inner.last() != c
            &&& text == r.0 + inner + r.1
            &&& forall|k: int| 0 <= k < r.0.len() ==> r.0[k] == c
            &&& forall|k: int| 0 <= k < r.1.len() ==> r.1[k] == c
        }),
    decreases text.len(),
{
    let inner = trim_char(text, c);
    let empty = Seq::<char>::empty();
    if text.len() > 0 && text[0] == c {
        let tail = text.drop_first();
        let (left, right) = lemma_trim_char(tail, c);
        let longer = seq![c] + left;
        assert(text =~= seq![c] + tail);
        assert(text =~= longer + inner + right);
        (longer, right)
    } else if text.len() > 0 && text.last() == c {
        let front = text.drop_last();
        let (left, right) = lemma_trim_char(front, c);
        let longer = right.push(c);
        assert(text =~= front.push(c));
        assert(text =~= left + inner + longer);
        (left, longer)
    } else {
        assert(text =~= empty + inner + empty);
        (empty, empty)
    }
}

/// Whether `after` is the delimiter cell `before` with a colon at its left end exactly where
/// `left` says so, and at its right end exactly where `right` does, around the same dashes.
pub open spec fn is_marked(before: Seq<char>, after: Seq<char>, left: bool, right: bool) -> bool {
    exists|dashes: Seq<char>, a: Seq<char>, b: Seq<char>|
        {
            &&& before == #[trigger] (a + dashes + b)
            &&& forall|k: int| 0 <= k < a.len() ==> a[k] == ':'
            &&& forall|k: int| 0 <= k < b.len() ==> b[k] == ':'
            &&& dashes.len() > 0 ==> dashes[0] != ':' && dashes.last() != ':'
            &&& after == (if left {
                seq![':']
            } else {
                Seq::empty()
            }) + dashes + (if right {
                seq![':']
            } else {
                Seq::empty()
            })
        }
}

/// Aligning a column changes the delimiter cell of the column that the selection is in and
/// nothing else: a colon on the left for left and centre, one on the right for right and
/// centre, none by default. There is no edit exactly where the cell already reads so.
pub proof fn law_aligned_column_is_the_selected_one(
    text: Seq<char>,
    table: TableBlock,
    current: TableCellAddress,
    selections: Selections,
    edit: TableEdit,
    r: Option<TableEditPlan>,
)
    requires
        table.wf(text),
        edit == TableEdit::AlignLeft || edit == TableEdit::AlignCenter || edit
            == TableEdit::AlignRight || edit == TableEdit::AlignDefault,
        pipe_planned(text, table, current, selections, edit, r),
        r is Some || (current.row + 1 < table.lines@.len() && current.column
            < table.lines@[1]@.len() && selected_in(
            selections,
            table.lines@[if current.row == 0 {
                0
            } else {
                current.row + 1
            }]@[current.column as int],
        )),
    ensures
        ({
            let cell = table.lines@[1]@[current.column as int];
            let before = span(text, cell.start as int, cell.end as int);
            let left = edit == TableEdit::AlignLeft || edit == TableEdit::AlignCenter;
            let right = edit == TableEdit::AlignRight || edit == TableEdit::AlignCenter;
            match r {
                Some(plan) => {
                    let edits = edit_views(plan.edits@);
                    &&& edits.len() == 1
                    &&& edits[0].start == cell.start && edits[0].end == cell.end
                    &&& is_marked(before, edits[0].text, left, right)
                    &&& edits[0].text != before
                    &&& plan.target == current
                },
                None => is_marked(before, before, left, right),
            }
        }),
{
    let cell = table.lines@[1]@[current.column as int];
    let before = span(text, cell.start as int, cell.end as int);
    let dashes = trim_char(before, ':');
    let (a, b) = lemma_trim_char(before, ':');
    reveal_strlit(":");
    assert(":"@ =~= seq![':']);
    let after = aligned(edit, dashes);
    let left = edit == TableEdit::AlignLeft || edit == TableEdit::AlignCenter;
    let right = edit == TableEdit::AlignRight || edit == TableEdit::AlignCenter;
    let one = (if left {
        seq![':']
    } else {
        Seq::empty()
    }) + dashes + (if right {
        seq![':']
    } else {
        Seq::empty()
    });
    assert(after =~= one);
    assert(before == a + dashes + b);
    assert(is_marked(before, after, left, right));
}

/// Which commands apply to a selected cell: all but deleting the header and adding a row
/// before it, and aligning a column as it is aligned already.
pub proof fn law_commands_apply_to_the_selected_cell(
    text: Seq<char>,
    table: TableBlock,
    current: TableCellAddress,
    selections: Selections,
    edit: TableEdit,
    r: Option<TableEditPlan>,
)
    requires
        table.wf(text),
        pipe_planned(text, table, current, selections, edit, r),
        edit != TableEdit::AlignLeft && edit != TableEdit::AlignCenter && edit
            != TableEdit::AlignRight && edit != TableEdit::AlignDefault,
    ensures
        r is Some <==> current.row + 1 < table.lines@.len() && current.column
            < table.lines@[1]@.len() && selected_in(
            selections,
            table.lines@[if current.row == 0 {
                0
            } else {
                current.row + 1
            }]@[current.column as int],
        ) && !(current.row == 0 && (edit == TableEdit::DeleteRow || edit
            == TableEdit::InsertRowBefore)),
{
}

} // verus!
