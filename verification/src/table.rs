//! A laid out table: its shape, which cell a position is in, and dragging dividers.
use crate::geometry::{all_moved, moved, shift_range, shift_ranges, LayoutError};
use crate::marks::StyleId;
use crate::offset::{ByteOffset, Revision, TextRange};
use crate::selection::Bias;
use crate::text::{get, sliceable, span};
use crate::visual::{VisualOffset, VisualRange, VisualText, VisualTextError};
use vstd::prelude::*;

verus! {

/// A divider between two columns or rows, by the one before it.
#[derive(Clone, Copy, Debug, PartialEq, Eq, Hash, Structural)]
pub enum TableResizeTarget {
    Column { index: usize },
    Row { index: usize },
}

/// Why a drag cannot go on.
#[derive(Clone, Copy, Debug, PartialEq, Eq, Structural)]
pub enum TableResizeGestureError {
    /// The document has changed since the drag began.
    StaleRevision { expected: Revision, actual: Revision },
    /// The pointer is nowhere; its coordinate is given by its bits.
    NonFinitePointer(u32),
}

/// A coordinate of the pointer, by its bits, and whether it is a number.
#[derive(Clone, Copy, Debug, PartialEq, Eq, Structural)]
pub struct Pointer {
    pub bits: u32,
    pub finite: bool,
}

impl Pointer {
    fn check(self) -> (r: Result<(), TableResizeGestureError>)
        ensures
            r == (if self.finite {
                Ok::<(), TableResizeGestureError>(())
            } else {
                Err::<(), TableResizeGestureError>(
                    TableResizeGestureError::NonFinitePointer(self.bits),
                )
            }),
    {
        if self.finite {
            Ok(())
        } else {
            Err(TableResizeGestureError::NonFinitePointer(self.bits))
        }
    }
}

/// A drag of a divider. The place where the pointer went down is kept apart from the
/// divider's own, so that the divider does not jump. Nothing in the document changes.
#[derive(Clone, Copy, Debug, PartialEq, Eq, Structural)]
pub struct TableResizeGesture {
    pub revision: Revision,
    pub block_index: usize,
    pub target: TableResizeTarget,
    pub divider: u32,
    pub start: u32,
    pub current: u32,
}

/// The first of three coordinates that is no number.
pub open spec fn first_bad(a: Pointer, b: Pointer, c: Pointer) -> Option<u32> {
    if !a.finite {
        Some(a.bits)
    } else if !b.finite {
        Some(b.bits)
    } else if !c.finite {
        Some(c.bits)
    } else {
        None
    }
}

impl TableResizeGesture {
    /// Begins a drag: the pointer went down at `pointer`, on the divider at `divider`.
    pub fn begin(
        revision: Revision,
        block_index: usize,
        target: TableResizeTarget,
        divider: Pointer,
        pointer: Pointer,
    ) -> (r: Result<TableResizeGesture, TableResizeGestureError>)
        ensures
            match first_bad(pointer, divider, divider) {
                Some(bits) => r == Err::<TableResizeGesture, TableResizeGestureError>(
                    TableResizeGestureError::NonFinitePointer(bits),
                ),
                None => r == Ok::<TableResizeGesture, TableResizeGestureError>(
                    TableResizeGesture {
                        revision,
                        block_index,
                        target,
                        divider: divider.bits,
                        start: pointer.bits,
                        current: pointer.bits,
                    },
                ),
            },
    {
        if let Err(error) = pointer.check() {
            return Err(error);
        }
        if let Err(error) = divider.check() {
            return Err(error);
        }
        Ok(
            TableResizeGesture {
                revision,
                block_index,
                target,
                divider: divider.bits,
                start: pointer.bits,
                current: pointer.bits,
            },
        )
    }

    /// The revision that the drag began in.
    pub fn revision(self) -> (r: Revision)
        ensures
            r == self.revision,
    {
        self.revision
    }

    /// The block of the table.
    pub fn block_index(self) -> (r: usize)
        ensures
            r == self.block_index,
    {
        self.block_index
    }

    /// The divider.
    pub fn target(self) -> (r: TableResizeTarget)
        ensures
            r == self.target,
    {
        self.target
    }

    fn ensure_revision(&self, actual: Revision) -> (r: Result<(), TableResizeGestureError>)
        ensures
            r == (if self.revision == actual {
                Ok::<(), TableResizeGestureError>(())
            } else {
                Err::<(), TableResizeGestureError>(
                    TableResizeGestureError::StaleRevision { expected: self.revision, actual },
                )
            }),
    {
        if self.revision == actual {
            Ok(())
        } else {
            Err(TableResizeGestureError::StaleRevision { expected: self.revision, actual })
        }
    }

    /// Moves the pointer. `delta` is how far it is from where it went down, `proposed`
    /// where the divider would be. A refused move changes nothing.
    pub fn update(
        &mut self,
        revision: Revision,
        pointer: Pointer,
        delta: Pointer,
        proposed: Pointer,
    ) -> (r: Result<(), TableResizeGestureError>)
        ensures
            if old(self).revision != revision {
                r == Err::<(), TableResizeGestureError>(
                    TableResizeGestureError::StaleRevision {
                        expected: old(self).revision,
                        actual: revision,
                    },
                ) && *final(self) == *old(self)
            } else {
                match first_bad(pointer, delta, proposed) {
                    Some(bits) => r == Err::<(), TableResizeGestureError>(
                        TableResizeGestureError::NonFinitePointer(bits),
                    ) && *final(self) == *old(self),
                    None => r is Ok && *final(self) == (TableResizeGesture {
                        current: pointer.bits,
                        ..*old(self)
                    }),
                }
            },
    {
        if let Err(error) = self.ensure_revision(revision) {
            return Err(error);
        }
        if let Err(error) = pointer.check() {
            return Err(error);
        }
        if let Err(error) = delta.check() {
            return Err(error);
        }
        if let Err(error) = proposed.check() {
            return Err(error);
        }
        self.current = pointer.bits;
        Ok(())
    }

    /// Ends the drag: what was dragged, where it was and where the pointer is now.
    pub fn finish(self, revision: Revision) -> (r: Result<
        TableResizeGesture,
        TableResizeGestureError,
    >)
        ensures
            r == (if self.revision == revision {
                Ok::<TableResizeGesture, TableResizeGestureError>(self)
            } else {
                Err::<TableResizeGesture, TableResizeGestureError>(
                    TableResizeGestureError::StaleRevision {
                        expected: self.revision,
                        actual: revision,
                    },
                )
            }),
    {
        match self.ensure_revision(revision) {
            Ok(_) => Ok(self),
            Err(error) => Err(error),
        }
    }

    /// Gives the drag up.
    pub fn cancel(self, revision: Revision) -> (r: Result<(), TableResizeGestureError>)
        ensures
            r == (if self.revision == revision {
                Ok::<(), TableResizeGestureError>(())
            } else {
                Err::<(), TableResizeGestureError>(
                    TableResizeGestureError::StaleRevision {
                        expected: self.revision,
                        actual: revision,
                    },
                )
            }),
    {
        self.ensure_revision(revision)
    }
}

/// Why a table of so many columns, with a delimiter row of `delimiter` cells and rows of
/// these lengths, header first, cannot be laid out.
pub open spec fn shape_error(columns: int, delimiter: int, rows: Seq<usize>) -> Option<LayoutError> {
    if columns == 0 || delimiter != columns {
        Some(LayoutError::TableColumns)
    } else if exists|k: int| 0 <= k < rows.len() && #[trigger] rows[k] != columns {
        Some(LayoutError::TableRow)
    } else {
        None
    }
}

/// Whether a table can be laid out: every row has a cell for every column.
pub fn check_shape(columns: usize, delimiter: usize, rows: &[usize]) -> (r: Result<
    (),
    LayoutError,
>)
    ensures
        match shape_error(columns as int, delimiter as int, rows@) {
            Some(error) => r == Err::<(), LayoutError>(error),
            None => r is Ok,
        },
{
    if columns == 0 || delimiter != columns {
        return Err(LayoutError::TableColumns);
    }
    let mut i: usize = 0;
    while i < rows.len()
        invariant
            i <= rows@.len(),
            columns != 0,
            delimiter == columns,
            forall|k: int| 0 <= k < i ==> #[trigger] rows@[k] == columns,
        decreases rows@.len() - i,
    {
        if rows[i] != columns {
            assert(rows@[i as int] != columns);
            return Err(LayoutError::TableRow);
        }
        i += 1;
    }
    Ok(())
}

/// The line of a table's source that visible row `row` is: the delimiter row is the
/// second and is not seen.
pub open spec fn source_line(row: int) -> int {
    if row > 0 {
        row + 1
    } else {
        0
    }
}

/// The source of every visible row. `lines` holds that of every line of the table.
pub fn row_sources(lines: &[TextRange], rows: usize) -> (r: Result<Vec<TextRange>, LayoutError>)
    ensures
        if rows == 0 || source_line(rows - 1) < lines@.len() {
            r is Ok && r->Ok_0@ == Seq::new(rows as nat, |k: int| lines@[source_line(k)])
        } else {
            r == Err::<Vec<TextRange>, LayoutError>(LayoutError::OffsetOverflow)
        },
{
    let mut out: Vec<TextRange> = Vec::new();
    let count = lines.len();
    let mut row: usize = 0;
    while row < rows
        invariant
            row <= rows,
            count == lines@.len(),
            row > 0 ==> source_line(row - 1) < lines@.len(),
            out@ == Seq::new(row as nat, |k: int| lines@[source_line(k)]),
        decreases rows - row,
    {
        let line: usize = if row == 0 {
            0
        } else {
            if row >= count {
                return Err(LayoutError::OffsetOverflow);
            }
            row + 1
        };
        if line >= count {
            return Err(LayoutError::OffsetOverflow);
        }
        out.push(lines[line]);
        row += 1;
        assert(out@ =~= Seq::new(row as nat, |k: int| lines@[source_line(k)]));
    }
    Ok(out)
}

/// A cell of a laid out table.
#[derive(Clone, Copy, Debug, PartialEq, Eq, Structural)]
pub struct TableCellPlace {
    pub row: usize,
    pub column: usize,
    pub source: TextRange,
    pub visual: VisualRange,
}

/// Whether a visible offset is in a cell, its ends included.
pub open spec fn cell_covers(cell: TableCellPlace, visual: VisualOffset) -> bool {
    cell.visual.start.value <= visual.value <= cell.visual.end.value
}

/// The cell that a visible offset is in. Empty cells may share an offset; the bias
/// picks the first or the last.
pub fn cell_for_visual(cells: &[TableCellPlace], visual: VisualOffset, bias: Bias) -> (r: Option<
    usize,
>)
    ensures
        match r {
            Some(k) => {
                &&& k < cells@.len()
                &&& cell_covers(cells@[k as int], visual)
                &&& match bias {
                    Bias::Before => forall|j: int|
                        0 <= j < k ==> !cell_covers(#[trigger] cells@[j], visual),
                    Bias::After => forall|j: int|
                        k < j < cells@.len() ==> !cell_covers(#[trigger] cells@[j], visual),
                }
            },
            None => forall|j: int|
                0 <= j < cells@.len() ==> !cell_covers(#[trigger] cells@[j], visual),
        },
{
    let mut found: Option<usize> = None;
    let mut i: usize = 0;
    while i < cells.len()
        invariant
            i <= cells@.len(),
            match found {
                Some(k) => {
                    &&& k < i
                    &&& cell_covers(cells@[k as int], visual)
                    &&& match bias {
                        Bias::Before => forall|j: int|
                            0 <= j < k ==> !cell_covers(#[trigger] cells@[j], visual),
                        Bias::After => forall|j: int|
                            k < j < i ==> !cell_covers(#[trigger] cells@[j], visual),
                    }
                },
                None => forall|j: int|
                    0 <= j < i ==> !cell_covers(#[trigger] cells@[j], visual),
            },
        decreases cells@.len() - i,
    {
        let cell = cells[i];
        if cell.visual.start.value <= visual.value && visual.value <= cell.visual.end.value {
            let keep = match bias {
                Bias::Before => found.is_some(),
                Bias::After => false,
            };
            if !keep {
                found = Some(i);
            }
        }
        i += 1;
    }
    found
}

/// Whether some cell holds all of `range`.
pub open spec fn in_some_cell(cells: Seq<TableCellPlace>, range: TextRange) -> bool {
    exists|k: int| 0 <= k < cells.len() && (#[trigger] cells[k]).source.spec_contains_range(range)
}

/// Whether hidden source that belongs to no cell, such as a bar, stands at a visible
/// offset.
pub open spec fn structural_at(
    cells: Seq<TableCellPlace>,
    text: VisualText,
    hiding: Seq<TextRange>,
    visual: VisualOffset,
) -> bool {
    exists|k: int|
        0 <= k < hiding.len() && (#[trigger] hiding[k]).start.value != hiding[k].end.value
            && text.canonical(hiding[k].start.value as int) == visual.value && !in_some_cell(
            cells,
            hiding[k],
        )
}

/// The first cell from `from` on that begins at or behind a visible offset, or the
/// number of cells.
pub open spec fn cell_from(cells: Seq<TableCellPlace>, visual: VisualOffset, from: int) -> int
    decreases cells.len() - from,
{
    if 0 <= from < cells.len() && cells[from].visual.start.value < visual.value {
        cell_from(cells, visual, from + 1)
    } else {
        from
    }
}

fn any_cell_contains(cells: &[TableCellPlace], range: TextRange) -> (r: bool)
    ensures
        r == in_some_cell(cells@, range),
{
    let mut i: usize = 0;
    while i < cells.len()
        invariant
            i <= cells@.len(),
            forall|k: int|
                0 <= k < i ==> !(#[trigger] cells@[k]).source.spec_contains_range(range),
        decreases cells@.len() - i,
    {
        if cells[i].source.contains_range(range) {
            assert(cells@[i as int].source.spec_contains_range(range));
            return true;
        }
        i += 1;
    }
    false
}

/// Where the caret goes for a hit at a visible offset on which hidden syntax between
/// cells stands: to the next cell's start, or behind the last cell, never onto a byte
/// that is not seen. `hiding` holds the ranges that are hidden. `None` elsewhere.
pub fn source_for_visual_hit(
    cells: &[TableCellPlace],
    text: &VisualText,
    hiding: &[TextRange],
    visual: VisualOffset,
) -> (r: Option<ByteOffset>)
    requires
        text.wf(),
    ensures
        r == (if !structural_at(cells@, *text, hiding@, visual) || cells@.len() == 0 {
            None
        } else {
            let next = cell_from(cells@, visual, 0);
            if next < cells@.len() {
                Some(cells@[next].source.start)
            } else {
                Some(cells@.last().source.end)
            }
        }),
{
    let mut structural = false;
    let mut i: usize = 0;
    while !structural && i < hiding.len()
        invariant
            i <= hiding@.len(),
            text.wf(),
            structural ==> structural_at(cells@, *text, hiding@, visual),
            !structural ==> forall|k: int|
                0 <= k < i ==> !((#[trigger] hiding@[k]).start.value != hiding@[k].end.value
                    && text.canonical(hiding@[k].start.value as int) == visual.value
                    && !in_some_cell(cells@, hiding@[k])),
        decreases hiding@.len() - i + if structural { 0int } else { 1 },
    {
        let range = hiding[i];
        if !range.is_empty() && text.canonical_source_to_visual(range.start).value == visual.value
            && !any_cell_contains(cells, range) {
            assert(hiding@[i as int] == range);
            structural = true;
        } else {
            i += 1;
        }
    }
    if !structural || cells.len() == 0 {
        return None;
    }
    let mut next: usize = 0;
    while next < cells.len() && cells[next].visual.start.value < visual.value
        invariant
            next <= cells@.len(),
            cell_from(cells@, visual, next as int) == cell_from(cells@, visual, 0),
        decreases cells@.len() - next,
    {
        next += 1;
    }
    if next < cells.len() {
        Some(cells[next].source.start)
    } else {
        Some(cells[cells.len() - 1].source.end)
    }
}

/// The sources of a laid out table.
#[derive(Debug)]
pub struct TableSources {
    pub table: TextRange,
    pub delimiter: Option<TextRange>,
    pub cells: Vec<TextRange>,
    pub rows: Vec<TextRange>,
}

impl TableSources {
    /// The same table where the source moved by `delta` bytes. Nothing else of it
    /// changes with an edit outside.
    pub fn shifted(&self, delta: i64) -> (r: Result<TableSources, LayoutError>)
        ensures
            ({
                let fits = moved(self.table, delta) is Ok && (self.delimiter matches Some(d)
                    ==> moved(d, delta) is Ok) && all_moved(
                    self.cells@,
                    delta,
                    self.cells@.len() as int,
                ) is Some && all_moved(self.rows@, delta, self.rows@.len() as int) is Some;
                if fits {
                    &&& r is Ok
                    &&& moved(self.table, delta) == Ok::<TextRange, LayoutError>(r->Ok_0.table)
                    &&& match self.delimiter {
                        Some(d) => r->Ok_0.delimiter is Some && moved(d, delta) == Ok::<
                            TextRange,
                            LayoutError,
                        >(r->Ok_0.delimiter->Some_0),
                        None => r->Ok_0.delimiter is None,
                    }
                    &&& all_moved(self.cells@, delta, self.cells@.len() as int) == Some(
                        r->Ok_0.cells@,
                    )
                    &&& all_moved(self.rows@, delta, self.rows@.len() as int) == Some(
                        r->Ok_0.rows@,
                    )
                } else {
                    r == Err::<TableSources, LayoutError>(LayoutError::OffsetOverflow)
                }
            }),
    {
        let table = match shift_range(self.table, delta) {
            Ok(range) => range,
            Err(error) => return Err(error),
        };
        let delimiter = match self.delimiter {
            Some(range) => match shift_range(range, delta) {
                Ok(there) => Some(there),
                Err(error) => return Err(error),
            },
            None => None,
        };
        let cells = match shift_ranges(&self.cells, delta) {
            Ok(ranges) => ranges,
            Err(error) => return Err(error),
        };
        let rows = match shift_ranges(&self.rows, delta) {
            Ok(ranges) => ranges,
            Err(error) => return Err(error),
        };
        Ok(TableSources { table, delimiter, cells, rows })
    }
}

/// Where a cell's content stands in the visible text.
pub fn cell_visual(text: &VisualText, source: TextRange) -> (r: Result<
    VisualRange,
    VisualTextError,
>)
    requires
        text.wf(),
    ensures
        match r {
            Ok(visual) => {
                let end = text.to_visual(source.end.value as int, Bias::Before);
                &&& text.source_error(source.start) is None
                &&& text.source_error(source.end) is None
                &&& visual.start.value == text.to_visual(source.start.value as int, Bias::After)
                &&& visual.end.value == if end >= visual.start.value {
                    end
                } else {
                    visual.start.value as int
                }
            },
            Err(error) => text.source_error(source.start) == Some(error) || (text.source_error(
                source.start,
            ) is None && text.source_error(source.end) == Some(error)),
        },
{
    let start = match text.source_to_visual(source.start, Bias::After) {
        Ok(start) => start,
        Err(error) => return Err(error),
    };
    let end = match text.source_to_visual(source.end, Bias::Before) {
        Ok(end) => end,
        Err(error) => return Err(error),
    };
    Ok(
        VisualRange {
            start,
            end: if end.value >= start.value {
                end
            } else {
                start
            },
        },
    )
}

/// A run of text in one style.
#[derive(Clone, Copy, Debug, PartialEq, Eq, Structural)]
pub struct StyleRun {
    pub visual: VisualRange,
    pub style: StyleId,
}

/// The part of a run that lies in `cell`, or `None` where that is nothing.
pub open spec fn run_in(run: StyleRun, cell: VisualRange) -> Option<StyleRun> {
    let start = if run.visual.start.value >= cell.start.value {
        run.visual.start
    } else {
        cell.start
    };
    let end = if run.visual.end.value <= cell.end.value {
        run.visual.end
    } else {
        cell.end
    };
    if start.value < end.value {
        Some(StyleRun { visual: VisualRange { start, end }, style: run.style })
    } else {
        None
    }
}

/// The parts of the first `count` runs that lie in `cell`.
pub open spec fn runs_in(runs: Seq<StyleRun>, cell: VisualRange, count: int) -> Seq<StyleRun>
    decreases count,
{
    if count <= 0 {
        Seq::empty()
    } else {
        let before = runs_in(runs, cell, count - 1);
        match run_in(runs[count - 1], cell) {
            Some(part) => before.push(part),
            None => before,
        }
    }
}

/// Whether a run can be cut out of `text`.
pub open spec fn readable(text: Seq<char>, run: StyleRun) -> bool {
    sliceable(text, run.visual.start.value as int, run.visual.end.value as int)
}

/// A piece of a cell's text in one style.
#[derive(Debug)]
pub struct CellPiece {
    pub run: StyleRun,
    pub text: String,
}

/// Whether `piece` is the text of `part`.
pub open spec fn piece_is(piece: CellPiece, text: Seq<char>, part: StyleRun) -> bool {
    &&& readable(text, part)
    &&& piece.run == part
    &&& piece.text@ == span(
        text,
        part.visual.start.value as int,
        part.visual.end.value as int,
    )
}

/// Whether the pieces are the texts of the parts, one for one.
pub open spec fn pieces_are(
    pieces: Seq<CellPiece>,
    text: Seq<char>,
    parts: Seq<StyleRun>,
) -> bool {
    &&& pieces.len() == parts.len()
    &&& forall|k: int| 0 <= k < pieces.len() ==> piece_is(#[trigger] pieces[k], text, parts[k])
}

/// The text of a cell, style by style, in order: what is measured to find how wide the
/// cell wants to be. A run that splits a character is refused.
pub fn cell_pieces(text: &str, runs: &[StyleRun], cell: VisualRange) -> (r: Result<
    Vec<CellPiece>,
    LayoutError,
>)
    ensures
        match r {
            Ok(pieces) => pieces_are(
                pieces@,
                text@,
                runs_in(runs@, cell, runs@.len() as int),
            ),
            Err(error) => error == LayoutError::OffsetOverflow && exists|k: int|
                0 <= k < runs_in(runs@, cell, runs@.len() as int).len() && !readable(
                    text@,
                    #[trigger] runs_in(runs@, cell, runs@.len() as int)[k],
                ),
        },
{
    let mut out: Vec<CellPiece> = Vec::new();
    let mut i: usize = 0;
    while i < runs.len()
        invariant
            i <= runs@.len(),
            pieces_are(out@, text@, runs_in(runs@, cell, i as int)),
        decreases runs@.len() - i,
    {
        let run = runs[i];
        let ghost parts = runs_in(runs@, cell, i as int);
        let start = if run.visual.start.value >= cell.start.value {
            run.visual.start
        } else {
            cell.start
        };
        let end = if run.visual.end.value <= cell.end.value {
            run.visual.end
        } else {
            cell.end
        };
        if start.value < end.value {
            let part = StyleRun { visual: VisualRange { start, end }, style: run.style };
            assert(runs_in(runs@, cell, i + 1) == parts.push(part));
            match read_piece(text, part) {
                Some(piece) => {
                    let ghost before = out@;
                    out.push(CellPiece { run: part, text: piece });
                    assert forall|k: int| 0 <= k < out@.len() implies piece_is(
                        #[trigger] out@[k],
                        text@,
                        parts.push(part)[k],
                    ) by {
                        if k < before.len() {
                            assert(out@[k] == before[k]);
                        }
                    }
                },
                None => {
                    proof {
                        lemma_runs_prefix(runs@, cell, i + 1, runs@.len() as int);
                        let at = parts.len() as int;
                        assert(runs_in(runs@, cell, i + 1)[at] == part);
                        assert(!readable(text@, runs_in(runs@, cell, runs@.len() as int)[at]));
                    }
                    return Err(LayoutError::OffsetOverflow);
                },
            }
        } else {
            assert(runs_in(runs@, cell, i + 1) == parts);
        }
        i += 1;
    }
    Ok(out)
}

proof fn lemma_runs_prefix(runs: Seq<StyleRun>, cell: VisualRange, fewer: int, count: int)
    requires
        fewer <= count,
    ensures
        runs_in(runs, cell, fewer).len() <= runs_in(runs, cell, count).len(),
        forall|k: int|
            0 <= k < runs_in(runs, cell, fewer).len() ==> runs_in(runs, cell, count)[k]
                == #[trigger] runs_in(runs, cell, fewer)[k],
    decreases count - fewer,
{
    if fewer < count {
        lemma_runs_prefix(runs, cell, fewer, count - 1);
    }
}

/// Reads a run's text.
fn read_piece(text: &str, run: StyleRun) -> (r: Option<String>)
    ensures
        match r {
            Some(piece) => readable(text@, run) && piece@ == span(
                text@,
                run.visual.start.value as int,
                run.visual.end.value as int,
            ),
            None => !readable(text@, run),
        },
{
    let total = crate::text::text_len(text) as u64;
    if run.visual.start.value > total || run.visual.end.value > total {
        proof {
            if readable(text@, run) {
                crate::text::lemma_boundary_bounds(text@, run.visual.start.value as int);
                crate::text::lemma_boundary_bounds(text@, run.visual.end.value as int);
            }
        }
        return None;
    }
    match get(text, run.visual.start.value as usize, run.visual.end.value as usize) {
        Some(part) => Some(part.to_owned()),
        None => None,
    }
}

/// A click on hidden source between cells goes to the first cell that starts there or
/// further on.
pub proof fn law_next_cell_is_the_first_behind(cells: Seq<TableCellPlace>, visual: VisualOffset, k: int)
    requires
        0 <= k < cells.len(),
    ensures
        0 <= cell_from(cells, visual, 0) <= cells.len(),
        k < cell_from(cells, visual, 0) ==> cells[k].visual.start.value < visual.value,
        k == cell_from(cells, visual, 0) ==> visual.value <= cells[k].visual.start.value,
{
    lemma_cell_from(cells, visual, 0);
}

proof fn lemma_cell_from(cells: Seq<TableCellPlace>, visual: VisualOffset, from: int)
    requires
        0 <= from <= cells.len(),
    ensures
        ({
            let next = cell_from(cells, visual, from);
            &&& from <= next <= cells.len()
            &&& forall|k: int|
                from <= k < next ==> (#[trigger] cells[k]).visual.start.value < visual.value
            &&& next < cells.len() ==> visual.value <= cells[next].visual.start.value
        }),
    decreases cells.len() - from,
{
    if from < cells.len() && cells[from].visual.start.value < visual.value {
        lemma_cell_from(cells, visual, from + 1);
    }
}

/// The lines of a table are its rows and one more: the delimiter line, which is the second
/// and is no row. No two rows are the same line, and they keep their order.
pub proof fn law_rows_skip_the_delimiter_line(row: int, other: int)
    requires
        0 <= row < other,
    ensures
        source_line(row) < source_line(other),
        source_line(row) != 1,
        source_line(other) == other + 1,
        source_line(0) == 0,
{
}

/// Whether a place of the visible text lies in a range.
pub open spec fn lies_in(at: int, range: VisualRange) -> bool {
    range.start.value <= at < range.end.value
}

/// A cell's text is cut where its style changes: every place of a run that lies in the cell
/// is in a part of that style, and a part holds nothing that is not in the cell and in a run
/// of its style. `i` is the number of a run, `at` a place, and `k` the number of a part.
pub proof fn law_cell_is_cut_by_style(runs: Seq<StyleRun>, cell: VisualRange, i: int, at: int, k: int)
    requires
        0 <= i < runs.len(),
    ensures
        ({
            let parts = runs_in(runs, cell, runs.len() as int);
            &&& lies_in(at, runs[i].visual) && lies_in(at, cell) ==> exists|m: int|
                0 <= m < parts.len() && lies_in(at, (#[trigger] parts[m]).visual) && parts[m].style
                    == runs[i].style
            &&& 0 <= k < parts.len() ==> parts[k].visual.start.value < parts[k].visual.end.value
            &&& 0 <= k < parts.len() && lies_in(at, parts[k].visual) ==> lies_in(at, cell)
                && exists|m: int|
                0 <= m < runs.len() && lies_in(at, (#[trigger] runs[m]).visual) && runs[m].style
                    == parts[k].style
        }),
{
    lemma_parts(runs, cell, runs.len() as int, i, at, k);
}

proof fn lemma_parts(
    runs: Seq<StyleRun>,
    cell: VisualRange,
    count: int,
    i: int,
    at: int,
    k: int,
)
    requires
        0 <= count <= runs.len(),
    ensures
        ({
            let parts = runs_in(runs, cell, count);
            &&& 0 <= i < count && lies_in(at, runs[i].visual) && lies_in(at, cell) ==> exists|
                m: int,
            |
                0 <= m < parts.len() && lies_in(at, (#[trigger] parts[m]).visual) && parts[m].style
                    == runs[i].style
            &&& 0 <= k < parts.len() ==> parts[k].visual.start.value < parts[k].visual.end.value
            &&& 0 <= k < parts.len() && lies_in(at, parts[k].visual) ==> lies_in(at, cell)
                && exists|m: int|
                0 <= m < count && lies_in(at, (#[trigger] runs[m]).visual) && runs[m].style
                    == parts[k].style
        }),
    decreases count,
{
    if count > 0 {
        lemma_parts(runs, cell, count - 1, i, at, k);
        let before = runs_in(runs, cell, count - 1);
        let parts = runs_in(runs, cell, count);
        if 0 <= i < count - 1 && lies_in(at, runs[i].visual) && lies_in(at, cell) {
            let m = choose|m: int|
                0 <= m < before.len() && lies_in(at, (#[trigger] before[m]).visual)
                    && before[m].style == runs[i].style;
            assert(parts[m] == before[m]);
        } else if i == count - 1 && lies_in(at, runs[i].visual) && lies_in(at, cell) {
            assert(run_in(runs[i], cell) is Some);
            assert(lies_in(at, parts[before.len() as int].visual));
        }
        if 0 <= k < before.len() {
            assert(parts[k] == before[k]);
        } else if 0 <= k < parts.len() && lies_in(at, parts[k].visual) {
            assert(lies_in(at, runs[count - 1].visual));
        }
    }
}

} // verus!
