//! Pasting an HTML table from the clipboard over a table of the document.
//!
//! Reading tables and merging them is the parser's work; its results come in as
//! arguments.
use crate::document::error::EditorDocumentError;
use crate::document::table_html_plan::{
    adopt_line_endings, html_table_grid_plan, html_table_payload, html_table_replacement_plan,
    html_table_source_route, inside_cells, is_table_payload, markdown_table_accepts, read_cell,
    selects_all, selects_outside, with_line_endings, HtmlPasteRoute, ReadTable,
};
use crate::document::table_paste::TableGridPlan;
use crate::edit::{edit_views, edited, splice, EditView};
use crate::grid::{SourceSpan, TableCellAddress, TableGrid};
use crate::html::{span_in, span_wf};
use crate::offset::{ByteOffset, TextRange};
use crate::selection::Selections;
use crate::text::{
    byte_len, lemma_boundary_bounds, lemma_boundary_ends, lemma_encode_concat, lemma_span_bytes,
    lemma_span_join, lemma_span_middle, lemma_span_whole, slice, sliceable, span,
};
use vstd::prelude::*;

verus! {

/// The HTML table around the first selection: where it is, the content of its cells,
/// and the slot that the selection starts in.
#[derive(Debug)]
pub struct HtmlTarget {
    pub source: SourceSpan,
    pub cells: Vec<SourceSpan>,
    pub start: Option<TableCellAddress>,
}

/// A table with another merged into it: what is replaced by what, and the table that
/// was found in the replacement.
#[derive(Debug)]
pub struct HtmlMerge {
    pub range: TextRange,
    pub pasted: String,
    pub grid: Option<TableGrid>,
}

/// How a pasted table enters the document.
#[derive(Debug)]
pub enum HtmlSourcePlan {
    /// As it is, outside of any table.
    Outside,
    /// Into a pipe table, which becomes an HTML table for it.
    Markdown(String),
    /// Into an HTML table.
    Plan(TableGridPlan),
}

/// The slot in the last row and column of `rows` by `columns` slots from `start` on.
pub open spec fn far_slot(start: TableCellAddress, rows: int, columns: int) -> TableCellAddress {
    TableCellAddress {
        row: (start.row + rows - 1) as usize,
        column: (start.column + columns - 1) as usize,
    }
}

/// Whether `plan` replaces `range` by `text` and selects from `anchor` to `focus`.
pub open spec fn replaces(
    plan: TableGridPlan,
    range: TextRange,
    text: Seq<char>,
    anchor: int,
    focus: int,
) -> bool {
    &&& plan.range == range
    &&& plan.source@ == text
    &&& edit_views(plan.edits@) == seq![
        EditView { start: range.start.value as int, end: range.end.value as int, text },
    ]
    &&& plan.anchor == anchor
    &&& plan.focus == focus
}

/// The range of a table's source.
pub open spec fn range_of(source: SourceSpan) -> TextRange {
    TextRange {
        start: ByteOffset { value: source.start as u64 },
        end: ByteOffset { value: source.end as u64 },
    }
}

/// Whether `made` is the outcome of replacing the whole table at `target` by the pasted
/// one.
pub open spec fn replaced_whole(
    made: Result<HtmlSourcePlan, EditorDocumentError>,
    target: HtmlTarget,
    text: Seq<char>,
    read: ReadTable,
) -> bool {
    let cells = read.contents@;
    let base = target.source.start - read.source.start;
    if cells.len() > 0 && cells.first().start + base <= usize::MAX && cells.last().start + base
        <= usize::MAX {
        made matches Ok(HtmlSourcePlan::Plan(plan)) && replaces(
            plan,
            range_of(target.source),
            text,
            cells.first().start + base,
            cells.last().start + base,
        )
    } else {
        made == Err::<HtmlSourcePlan, EditorDocumentError>(EditorDocumentError::InvalidTablePaste)
    }
}

/// Whether `made` is the outcome of merging the pasted table in at `start`.
pub open spec fn merged_in(
    made: Result<HtmlSourcePlan, EditorDocumentError>,
    start: TableCellAddress,
    last: TableCellAddress,
    merge: Option<HtmlMerge>,
) -> bool {
    match merge {
        Some(merge) => {
            let base = merge.range.start.value as int;
            match merge.grid {
                Some(grid) if read_cell(grid, start, base) is Some && read_cell(grid, last, base) is Some
                    => made matches Ok(HtmlSourcePlan::Plan(plan)) && replaces(
                    plan,
                    merge.range,
                    merge.pasted@,
                    read_cell(grid, start, base)->Some_0,
                    read_cell(grid, last, base)->Some_0,
                ),
                _ => made == Err::<HtmlSourcePlan, EditorDocumentError>(
                    EditorDocumentError::InvalidTablePaste,
                ),
            }
        },
        None => made == Err::<HtmlSourcePlan, EditorDocumentError>(
            EditorDocumentError::InvalidTablePaste,
        ),
    }
}

/// Whether the table in a payload is to be merged into the HTML table around the selection.
pub open spec fn merges(
    source_mode: bool,
    payload: Seq<char>,
    read: Option<&ReadTable>,
    outside: bool,
    selections: Selections,
    target: Option<&HtmlTarget>,
) -> bool {
    &&& is_table_payload(payload, read)
    &&& !outside
    &&& !source_mode
    &&& target matches Some(into) && into.start is Some && !selects_all(selections, into.cells@)
        && !selects_outside(selections, into.source)
}

/// Whether the last of `rows` by `columns` slots from `start` on has an address.
pub open spec fn slot_exists(start: TableCellAddress, rows: usize, columns: usize) -> bool {
    &&& 0 < start.row + rows <= usize::MAX
    &&& 0 < start.column + columns <= usize::MAX
}

/// Plans how the table in a clipboard payload enters the document. `read` is the only
/// table that was found in the payload; `outside` says that no selection is in a table;
/// `target` is the HTML table around the first selection; `merge` is what merging the
/// payload into it at the selection gave. A payload that is more than one table is
/// refused. In source mode there are no HTML tables to paste into.
pub fn html_table_source_plan(
    source_mode: bool,
    payload: &str,
    read: Option<&ReadTable>,
    outside: bool,
    selections: &Selections,
    target: Option<&HtmlTarget>,
    merge: Option<HtmlMerge>,
) -> (r: Result<HtmlSourcePlan, EditorDocumentError>)
    requires
        read matches Some(table) ==> table.wf(payload@),
        merges(source_mode, payload@, read, outside, *selections, target) && merge is Some
            && merge->Some_0.grid is Some ==> slot_exists(
            target->Some_0.start->Some_0,
            read->Some_0.rows,
            read->Some_0.columns,
        ),
        merge matches Some(merged) && merged.grid matches Some(grid) ==> grid.wf(),
    ensures
        if !is_table_payload(payload@, read) {
            r == Err::<HtmlSourcePlan, EditorDocumentError>(EditorDocumentError::InvalidTablePaste)
        } else {
            let table = *read->Some_0;
            let text = span(payload@, table.source.start as int, table.source.end as int);
            if outside {
                r matches Ok(HtmlSourcePlan::Outside)
            } else {
                match target {
                    Some(into) if !source_mode => if selects_all(*selections, into.cells@) {
                        replaced_whole(r, *into, text, table)
                    } else {
                        match into.start {
                            Some(start) if !selects_outside(*selections, into.source) => merged_in(
                                r,
                                start,
                                far_slot(start, table.rows as int, table.columns as int),
                                merge,
                            ),
                            _ => r == Err::<HtmlSourcePlan, EditorDocumentError>(
                                EditorDocumentError::InvalidTablePaste,
                            ),
                        }
                    },
                    _ => r matches Ok(HtmlSourcePlan::Markdown(made)) && made@ == text,
                }
            }
        },
{
    let text = match html_table_payload(payload, read) {
        Ok(text) => text,
        Err(error) => return Err(error),
    };
    if outside {
        return Ok(HtmlSourcePlan::Outside);
    }
    let table = match read {
        Some(table) => table,
        None => return Err(EditorDocumentError::InvalidTablePaste),
    };
    let into = match target {
        Some(into) if !source_mode => into,
        _ => return Ok(HtmlSourcePlan::Markdown(text)),
    };
    match html_table_source_route(selections, into.source, &into.cells, into.start.is_some()) {
        Err(error) => Err(error),
        Ok(HtmlPasteRoute::Replace) => {
            let range = TextRange {
                start: ByteOffset::new(into.source.start as u64),
                end: ByteOffset::new(into.source.end as u64),
            };
            match html_table_replacement_plan(range, text, table) {
                Ok(plan) => Ok(HtmlSourcePlan::Plan(plan)),
                Err(error) => Err(error),
            }
        },
        Ok(HtmlPasteRoute::Merge) => match (into.start, merge) {
            (Some(start), Some(merged)) => {
                if merged.grid.is_none() {
                    return Err(EditorDocumentError::InvalidTablePaste);
                }
                let last = TableCellAddress::new(
                    start.row + table.rows - 1,
                    start.column + table.columns - 1,
                );
                match html_table_grid_plan(
                    merged.range,
                    merged.pasted,
                    merged.grid.as_ref(),
                    start,
                    last,
                ) {
                    Ok(plan) => Ok(HtmlSourcePlan::Plan(plan)),
                    Err(error) => Err(error),
                }
            },
            _ => Err(EditorDocumentError::InvalidTablePaste),
        },
    }
}

/// The text that a pipe table at `table` becomes for a pasted HTML table. `cells` holds
/// the cell that each selection starts in, and `converted` the pipe table as an HTML
/// table with the pasted one merged in, where that could be made without loss. It takes
/// on the line endings of the table it replaces.
pub fn markdown_table_source_text(
    document: &str,
    table: SourceSpan,
    selections: &Selections,
    cells: &Vec<Option<SourceSpan>>,
    converted: Option<&str>,
) -> (r: Result<String, EditorDocumentError>)
    requires
        span_wf(document@, table),
        cells@.len() == selections.ranges@.len(),
    ensures
        if (selections.ranges@.len() > 1 && selections.columns() is None) || !inside_cells(
            *selections,
            cells@,
        ) || converted is None {
            r == Err::<String, EditorDocumentError>(EditorDocumentError::InvalidTablePaste)
        } else {
            r is Ok && r->Ok_0@ == with_line_endings(
                converted->Some_0@,
                span(document@, table.start as int, table.end as int),
            )
        },
{
    if let Err(error) = markdown_table_accepts(selections, cells) {
        return Err(error);
    }
    match converted {
        Some(text) => {
            let original = slice(document, table.start, table.end);
            Ok(adopt_line_endings(text, original))
        },
        None => Err(EditorDocumentError::InvalidTablePaste),
    }
}

/// The plan that puts that text in place of the pipe table and selects the pasted cells,
/// `rows` by `columns` from `start` on. `read` is the table that was found in the text.
pub fn markdown_table_source_plan(
    table: SourceSpan,
    text: String,
    read: Option<&TableGrid>,
    start: Option<TableCellAddress>,
    rows: usize,
    columns: usize,
) -> (r: Result<TableGridPlan, EditorDocumentError>)
    requires
        read matches Some(grid) ==> grid.wf(),
        start is Some && read is Some ==> slot_exists(start->Some_0, rows, columns),
    ensures
        match (start, read) {
            (Some(at), Some(grid)) => {
                let last = far_slot(at, rows as int, columns as int);
                let base = table.start as int;
                if read_cell(*grid, at, base) is Some && read_cell(*grid, last, base) is Some {
                    r is Ok && replaces(
                        r->Ok_0,
                        range_of(table),
                        text@,
                        read_cell(*grid, at, base)->Some_0,
                        read_cell(*grid, last, base)->Some_0,
                    )
                } else {
                    r == Err::<TableGridPlan, EditorDocumentError>(
                        EditorDocumentError::InvalidTablePaste,
                    )
                }
            },
            _ => r == Err::<TableGridPlan, EditorDocumentError>(
                EditorDocumentError::InvalidTablePaste,
            ),
        },
{
    let at = match start {
        Some(at) => at,
        None => return Err(EditorDocumentError::InvalidTablePaste),
    };
    if read.is_none() {
        return Err(EditorDocumentError::InvalidTablePaste);
    }
    let last = TableCellAddress::new(at.row + rows - 1, at.column + columns - 1);
    let range = TextRange {
        start: ByteOffset::new(table.start as u64),
        end: ByteOffset::new(table.end as u64),
    };
    html_table_grid_plan(range, text, read, at, last)
}

/// Where a range is replaced by a text, every piece of that text stands as far behind the
/// start of the range as it stands behind the start of the text.
pub proof fn law_replacement_stands_at_the_range(
    document: Seq<char>,
    range: TextRange,
    text: Seq<char>,
    start: int,
    end: int,
)
    requires
        sliceable(document, range.start.value as int, range.end.value as int),
        sliceable(text, start, end),
    ensures
        ({
            let made = edited(
                document,
                seq![
                    EditView { start: range.start.value as int, end: range.end.value as int, text },
                ],
            );
            let at = range.start.value as int;
            sliceable(made, at + start, at + end) && span(made, at + start, at + end) == span(
                text,
                start,
                end,
            )
        }),
{
    let at = range.start.value as int;
    let edits = seq![
        EditView { start: at, end: range.end.value as int, text },
    ];
    assert(edits.drop_first() =~= Seq::<EditView>::empty());
    let head = span(document, 0, at);
    let tail = span(document, range.end.value as int, byte_len(document));
    let len = byte_len(text);
    lemma_boundary_ends(document);
    lemma_boundary_bounds(document, at);
    lemma_span_bytes(document, 0, at);
    lemma_boundary_ends(text);
    lemma_boundary_bounds(text, start);
    lemma_boundary_bounds(text, end);
    let left = span(text, 0, start);
    let middle = span(text, start, end);
    let right = span(text, end, len);
    lemma_span_bytes(text, 0, start);
    lemma_span_bytes(text, start, end);
    lemma_span_join(text, 0, start, end);
    lemma_span_join(text, 0, end, len);
    lemma_span_whole(text);
    assert(text == left + middle + right);
    lemma_encode_concat(head, left);
    lemma_span_middle(head + left, middle, right + tail);
    let made = edited(document, edits);
    assert(splice(document, range.end.value as int, edits.drop_first()) == tail);
    assert(made == head + text + splice(document, range.end.value as int, edits.drop_first()));
    assert(made =~= (head + left) + middle + (right + tail));
}

/// A pasted table that takes the place of the whole table is selected from its first cell to
/// its last: what stands at the two ends of the selection is what those cells hold in the
/// clipboard.
pub proof fn law_replacing_table_is_selected(
    document: Seq<char>,
    payload: Seq<char>,
    target: HtmlTarget,
    read: ReadTable,
    plan: TableGridPlan,
)
    requires
        read.wf(payload),
        span_wf(document, target.source),
        byte_len(document) <= u64::MAX,
        replaced_whole(
            Ok(HtmlSourcePlan::Plan(plan)),
            target,
            span(payload, read.source.start as int, read.source.end as int),
            read,
        ),
    ensures
        ({
            let made = edited(document, edit_views(plan.edits@));
            let first = read.contents@.first();
            let last = read.contents@.last();
            &&& span(made, plan.anchor as int, plan.anchor + (first.end - first.start)) == span(
                payload,
                first.start as int,
                first.end as int,
            )
            &&& span(made, plan.focus as int, plan.focus + (last.end - last.start)) == span(
                payload,
                last.start as int,
                last.end as int,
            )
        }),
{
    let source = read.source;
    let text = span(payload, source.start as int, source.end as int);
    let first = read.contents@.first();
    let last = read.contents@.last();
    assert(read.contents@[0] == first);
    assert(read.contents@[read.contents@.len() - 1] == last);
    lemma_boundary_bounds(document, target.source.end as int);
    lemma_boundary_bounds(document, target.source.start as int);
    lemma_piece_of_span(payload, source, first);
    lemma_piece_of_span(payload, source, last);
    law_replacement_stands_at_the_range(
        document,
        range_of(target.source),
        text,
        first.start - source.start,
        first.end - source.start,
    );
    law_replacement_stands_at_the_range(
        document,
        range_of(target.source),
        text,
        last.start - source.start,
        last.end - source.start,
    );
}

proof fn lemma_piece_of_span(text: Seq<char>, outer: SourceSpan, inner: SourceSpan)
    requires
        span_wf(text, outer),
        span_wf(text, inner),
        span_in(outer, inner),
    ensures
        ({
            let part = span(text, outer.start as int, outer.end as int);
            let from = inner.start - outer.start;
            let to = inner.end - outer.start;
            sliceable(part, from, to) && span(part, from, to) == span(
                text,
                inner.start as int,
                inner.end as int,
            )
        }),
{
    let a = outer.start as int;
    let b = inner.start as int;
    let c = inner.end as int;
    let d = outer.end as int;
    lemma_span_bytes(text, a, b);
    lemma_span_bytes(text, b, c);
    lemma_span_join(text, a, b, c);
    lemma_span_join(text, a, c, d);
    lemma_span_middle(span(text, a, b), span(text, b, c), span(text, c, d));
}

/// From a slot to the far one of `rows` by `columns` slots there are that many rows and
/// columns, both ends included.
pub proof fn law_far_slot_closes_the_rectangle(start: TableCellAddress, rows: usize, columns: usize)
    requires
        slot_exists(start, rows, columns),
    ensures
        ({
            let far = far_slot(start, rows as int, columns as int);
            far.row - start.row + 1 == rows && far.column - start.column + 1 == columns
        }),
{
}

} // verus!
