//! Table grids: which cell owns which slot, and rectangles of slots.
use vstd::prelude::*;

verus! {

/// The bytes of the source that a cell, a row or a table occupies.
#[derive(Clone, Copy, Debug, PartialEq, Eq, Structural)]
pub struct SourceSpan {
    pub start: usize,
    pub end: usize,
}

impl SourceSpan {
    /// The bytes from `start` up to `end`.
    pub fn new(start: usize, end: usize) -> (r: SourceSpan)
        ensures
            r.start == start,
            r.end == end,
    {
        SourceSpan { start, end }
    }
}

/// A slot of a table, by row and column. Row 0 is the header.
#[derive(Clone, Copy, Debug, PartialEq, Eq, Structural)]
pub struct TableCellAddress {
    pub row: usize,
    pub column: usize,
}

impl TableCellAddress {
    /// The slot in `row` and `column`.
    pub fn new(row: usize, column: usize) -> (r: TableCellAddress)
        ensures
            r.row == row,
            r.column == column,
    {
        TableCellAddress { row, column }
    }

    /// The slot's row.
    pub fn row(self) -> (r: usize)
        ensures
            r == self.row,
    {
        self.row
    }

    /// The slot's column.
    pub fn column(self) -> (r: usize)
        ensures
            r == self.column,
    {
        self.column
    }
}

/// A rectangle of slots, both corners included.
#[derive(Clone, Copy, Debug, PartialEq, Eq, Structural)]
pub struct SlotRect {
    pub first: TableCellAddress,
    pub last: TableCellAddress,
}

impl SlotRect {
    /// Whether the slot in `row` and `column` lies in the rectangle.
    pub open spec fn has(self, row: int, column: int) -> bool {
        self.first.row <= row <= self.last.row && self.first.column <= column <= self.last.column
    }

    /// Whether every slot of `other` lies in the rectangle.
    pub open spec fn covers(self, other: SlotRect) -> bool {
        &&& self.first.row <= other.first.row
        &&& self.first.column <= other.first.column
        &&& other.last.row <= self.last.row
        &&& other.last.column <= self.last.column
    }
}

/// The slots of a table in row-major order. A slot names the cell that covers
/// it, so a merged cell owns several; a slot that no cell covers is empty.
#[derive(Debug)]
pub struct TableGrid {
    pub columns: usize,
    pub rows: usize,
    pub cells: Vec<SourceSpan>,
    pub slots: Vec<Option<usize>>,
}

impl TableGrid {
    /// Whether the slots form a rectangle and name existing cells.
    pub open spec fn wf(self) -> bool {
        &&& self.columns > 0
        &&& self.slots@.len() == self.rows * self.columns
        &&& forall|i: int|
            0 <= i < self.slots@.len() ==> ((#[trigger] self.slots@[i]) matches Some(owner) ==> owner
                < self.cells@.len())
    }

    /// The cell that covers the slot in `row` and `column`.
    pub open spec fn owner(self, row: int, column: int) -> Option<usize> {
        if 0 <= row < self.rows && 0 <= column < self.columns {
            self.slots@[row * self.columns + column]
        } else {
            None
        }
    }

    /// Whether no cell lies partly inside and partly outside `rect`.
    pub open spec fn closed_rect(self, rect: SlotRect) -> bool {
        forall|r1: int, c1: int, r2: int, c2: int|
            #![trigger self.owner(r1, c1), self.owner(r2, c2)]
            rect.has(r1, c1) && self.owner(r1, c1) is Some && self.owner(r2, c2) == self.owner(
                r1,
                c1,
            ) ==> rect.has(r2, c2)
    }

    /// Whether `rect` lies in the grid.
    pub open spec fn inside(self, rect: SlotRect) -> bool {
        &&& rect.first.row <= rect.last.row < self.rows
        &&& rect.first.column <= rect.last.column < self.columns
    }

    /// Whether `rect` is the least rectangle that holds both slots and splits
    /// no cell.
    pub open spec fn least_closed(
        self,
        rect: SlotRect,
        start: TableCellAddress,
        end: TableCellAddress,
    ) -> bool {
        &&& self.inside(rect)
        &&& rect.has(start.row as int, start.column as int)
        &&& rect.has(end.row as int, end.column as int)
        &&& self.closed_rect(rect)
        &&& forall|other: SlotRect|
            other.has(start.row as int, start.column as int) && other.has(
                end.row as int,
                end.column as int,
            ) && #[trigger] self.closed_rect(other) ==> other.covers(rect)
    }

    /// A grid of `columns` columns, or `None` where the slots form no rectangle
    /// or name a cell that is not there.
    pub fn new(columns: usize, cells: Vec<SourceSpan>, slots: Vec<Option<usize>>) -> (r: Option<
        TableGrid,
    >)
        ensures
            r matches Some(grid) ==> grid.wf() && grid.columns == columns && grid.cells == cells
                && grid.slots == slots,
            r is Some <==> columns > 0 && slots@.len() % (columns as nat) == 0 && (forall|i: int|
                0 <= i < slots@.len() ==> ((#[trigger] slots@[i]) matches Some(owner) ==> owner
                    < cells@.len())),
    {
        if columns == 0 || slots.len() % columns != 0 {
            return None;
        }
        let mut i: usize = 0;
        while i < slots.len()
            invariant
                i <= slots@.len(),
                forall|k: int|
                    0 <= k < i ==> ((#[trigger] slots@[k]) matches Some(owner) ==> owner
                        < cells@.len()),
            decreases slots@.len() - i,
        {
            if let Some(owner) = slots[i] {
                if owner >= cells.len() {
                    return None;
                }
            }
            i += 1;
        }
        let rows = slots.len() / columns;
        proof {
            vstd::arithmetic::div_mod::lemma_fundamental_div_mod(
                slots@.len() as int,
                columns as int,
            );
            assert(columns * rows == rows * columns) by (nonlinear_arith);
        }
        Some(TableGrid { columns, rows, cells, slots })
    }

    /// The cell that covers `address`, if one does.
    pub fn owner_at(&self, address: TableCellAddress) -> (r: Option<usize>)
        requires
            self.wf(),
        ensures
            r == self.owner(address.row as int, address.column as int),
            r matches Some(owner) ==> owner < self.cells@.len(),
    {
        if address.row >= self.rows || address.column >= self.columns {
            return None;
        }
        proof {
            lemma_slot_index(
                self.rows as int,
                self.columns as int,
                address.row as int,
                address.column as int,
            );
            assert(self.slots@.len() == self.slots.len());
        }
        self.slots[address.row * self.columns + address.column]
    }

    /// The source of the cell that covers `address`, if one does.
    pub fn visible_cell(&self, address: TableCellAddress) -> (r: Option<SourceSpan>)
        requires
            self.wf(),
        ensures
            r == (match self.owner(address.row as int, address.column as int) {
                Some(owner) => Some(self.cells@[owner as int]),
                None => None,
            }),
    {
        match self.owner_at(address) {
            Some(owner) => Some(self.cells[owner]),
            None => None,
        }
    }

    /// The least rectangle that holds both slots and splits no merged cell, or
    /// `None` where no cell covers one of the two.
    pub fn selection_bounds(&self, start: TableCellAddress, end: TableCellAddress) -> (r: Option<
        SlotRect,
    >)
        requires
            self.wf(),
        ensures
            r is Some <==> self.owner(start.row as int, start.column as int) is Some && self.owner(
                end.row as int,
                end.column as int,
            ) is Some,
            r matches Some(rect) ==> self.least_closed(rect, start, end),
    {
        if self.owner_at(start).is_none() || self.owner_at(end).is_none() {
            return None;
        }
        let mut rect = SlotRect {
            first: TableCellAddress::new(
                if start.row < end.row { start.row } else { end.row },
                if start.column < end.column { start.column } else { end.column },
            ),
            last: TableCellAddress::new(
                if start.row < end.row { end.row } else { start.row },
                if start.column < end.column { end.column } else { start.column },
            ),
        };
        loop
            invariant
                self.wf(),
                self.inside(rect),
                rect.has(start.row as int, start.column as int),
                rect.has(end.row as int, end.column as int),
                forall|other: SlotRect|
                    other.has(start.row as int, start.column as int) && other.has(
                        end.row as int,
                        end.column as int,
                    ) && #[trigger] self.closed_rect(other) ==> other.covers(rect),
            ensures
                self.least_closed(rect, start, end),
            decreases
                    rect.first.row + rect.first.column + (self.rows - rect.last.row) + (self.columns
                        - rect.last.column),
        {
            match self.crossing(rect) {
                None => {
                    break ;
                },
                Some((inner, outer)) => {
                    let ghost before = rect;
                    proof {
                        assert forall|other: SlotRect|
                            other.has(start.row as int, start.column as int) && other.has(
                                end.row as int,
                                end.column as int,
                            ) && #[trigger] self.closed_rect(other) implies other.has(
                            outer.row as int,
                            outer.column as int,
                        ) by {
                            assert(other.covers(before));
                            assert(self.owner(outer.row as int, outer.column as int) == self.owner(
                                inner.row as int,
                                inner.column as int,
                            ));
                        }
                    }
                    if outer.row < rect.first.row {
                        rect.first.row = outer.row;
                    }
                    if outer.row > rect.last.row {
                        rect.last.row = outer.row;
                    }
                    if outer.column < rect.first.column {
                        rect.first.column = outer.column;
                    }
                    if outer.column > rect.last.column {
                        rect.last.column = outer.column;
                    }
                },
            }
        }
        Some(rect)
    }

    /// Two slots of one cell, the first inside `rect` and the second outside.
    fn crossing(&self, rect: SlotRect) -> (r: Option<(TableCellAddress, TableCellAddress)>)
        requires
            self.wf(),
            self.inside(rect),
        ensures
            r is None ==> self.closed_rect(rect),
            r matches Some((inner, outer)) ==> {
                &&& rect.has(inner.row as int, inner.column as int)
                &&& !rect.has(outer.row as int, outer.column as int)
                &&& outer.row < self.rows
                &&& outer.column < self.columns
                &&& self.owner(inner.row as int, inner.column as int) is Some
                &&& self.owner(outer.row as int, outer.column as int) == self.owner(
                    inner.row as int,
                    inner.column as int,
                )
            },
    {
        let mut row: usize = rect.first.row;
        while row <= rect.last.row
            invariant
                self.wf(),
                self.inside(rect),
                rect.first.row <= row <= rect.last.row + 1,
                forall|r1: int, c1: int, r2: int, c2: int|
                    #![trigger self.owner(r1, c1), self.owner(r2, c2)]
                    rect.has(r1, c1) && r1 < row && self.owner(r1, c1) is Some && self.owner(r2, c2)
                        == self.owner(r1, c1) ==> rect.has(r2, c2),
            decreases rect.last.row + 1 - row,
        {
            let mut column: usize = rect.first.column;
            while column <= rect.last.column
                invariant
                    self.wf(),
                    self.inside(rect),
                    rect.first.row <= row <= rect.last.row,
                    rect.first.column <= column <= rect.last.column + 1,
                    forall|r1: int, c1: int, r2: int, c2: int|
                        #![trigger self.owner(r1, c1), self.owner(r2, c2)]
                        rect.has(r1, c1) && (r1 < row || (r1 == row && c1 < column)) && self.owner(
                            r1,
                            c1,
                        ) is Some && self.owner(r2, c2) == self.owner(r1, c1) ==> rect.has(r2, c2),
                decreases rect.last.column + 1 - column,
            {
                let inner = TableCellAddress::new(row, column);
                if let Some(owner) = self.owner_at(inner) {
                    if let Some(outer) = self.slot_outside(rect, owner) {
                        return Some((inner, outer));
                    }
                }
                column += 1;
            }
            row += 1;
        }
        None
    }

    /// A slot of `owner` outside `rect`.
    fn slot_outside(&self, rect: SlotRect, owner: usize) -> (r: Option<TableCellAddress>)
        requires
            self.wf(),
        ensures
            r is None ==> forall|row: int, column: int|
                (#[trigger] self.owner(row, column)) == Some(owner) ==> rect.has(row, column),
            r matches Some(slot) ==> {
                &&& !rect.has(slot.row as int, slot.column as int)
                &&& slot.row < self.rows
                &&& slot.column < self.columns
                &&& self.owner(slot.row as int, slot.column as int) == Some(owner)
            },
    {
        let mut row: usize = 0;
        while row < self.rows
            invariant
                self.wf(),
                row <= self.rows,
                forall|r1: int, c1: int|
                    r1 < row && (#[trigger] self.owner(r1, c1)) == Some(owner) ==> rect.has(r1, c1),
            decreases self.rows - row,
        {
            let mut column: usize = 0;
            while column < self.columns
                invariant
                    self.wf(),
                    row < self.rows,
                    column <= self.columns,
                    forall|r1: int, c1: int|
                        (r1 < row || (r1 == row && c1 < column)) && (#[trigger] self.owner(r1, c1))
                            == Some(owner) ==> rect.has(r1, c1),
                decreases self.columns - column,
            {
                let slot = TableCellAddress::new(row, column);
                if let Some(found) = self.owner_at(slot) {
                    if found == owner && !(rect.first.row <= row && row <= rect.last.row
                        && rect.first.column <= column && column <= rect.last.column) {
                        return Some(slot);
                    }
                }
                column += 1;
            }
            row += 1;
        }
        None
    }
}

/// A slot's place in row-major order lies inside the grid.
pub proof fn lemma_slot_index(rows: int, columns: int, row: int, column: int)
    requires
        0 <= row < rows,
        0 <= column < columns,
    ensures
        0 <= row * columns <= row * columns + column < rows * columns,
{
    assert(0 <= row * columns && row * columns + columns <= rows * columns) by (nonlinear_arith)
        requires
            0 <= row < rows,
            0 <= columns,
    ;
}

/// The cells that own the given slots, each once, in the order in which they
/// first appear.
pub open spec fn distinct_owners(slots: Seq<Option<usize>>) -> Seq<usize>
    decreases slots.len(),
{
    if slots.len() == 0 {
        Seq::empty()
    } else {
        let earlier = distinct_owners(slots.drop_last());
        match slots.last() {
            Some(owner) => if earlier.contains(owner) {
                earlier
            } else {
                earlier.push(owner)
            },
            None => earlier,
        }
    }
}

/// The slots of `rect` in row-major order, with the cell that covers each.
pub open spec fn rect_owners(grid: TableGrid, rect: SlotRect) -> Seq<Option<usize>> {
    let width = rect.last.column - rect.first.column + 1;
    let height = rect.last.row - rect.first.row + 1;
    Seq::new(
        (height * width) as nat,
        |k: int| grid.owner(rect.first.row + k / width, rect.first.column + k % width),
    )
}

/// The cells of a rectangle: each cell once, and for each slot which of them
/// covers it.
#[derive(Debug)]
pub struct TableCellSelection {
    pub ranges: Vec<SourceSpan>,
    pub primary: usize,
    pub columns: usize,
    pub slots: Vec<Option<usize>>,
}

/// Whether `selection` describes the cells of `rect`, with the cell at `end` as
/// its primary one.
pub open spec fn selects(
    grid: TableGrid,
    rect: SlotRect,
    end: TableCellAddress,
    selection: TableCellSelection,
) -> bool {
    let covered = rect_owners(grid, rect);
    let owners = distinct_owners(covered);
    let last = grid.owner(end.row as int, end.column as int)->0;
    &&& selection.columns == rect.last.column - rect.first.column + 1
    &&& selection.ranges@ == owners.map_values(|owner: usize| grid.cells@[owner as int])
    &&& owners.contains(last)
    &&& selection.primary == owners.index_of(last)
    &&& selection.slots@ == covered.map_values(
        |slot: Option<usize>|
            match slot {
                Some(owner) => Some(owners.index_of(owner) as usize),
                None => None,
            },
    )
}

proof fn lemma_distinct_owners(slots: Seq<Option<usize>>)
    ensures
        distinct_owners(slots).no_duplicates(),
        distinct_owners(slots).len() <= slots.len(),
        forall|i: int|
            0 <= i < slots.len() ==> ((#[trigger] slots[i]) matches Some(owner) ==> distinct_owners(
                slots,
            ).contains(owner)),
        forall|owner: usize|
            #[trigger] distinct_owners(slots).contains(owner) ==> slots.contains(Some(owner)),
    decreases slots.len(),
{
    if slots.len() > 0 {
        let earlier = distinct_owners(slots.drop_last());
        let all = distinct_owners(slots);
        lemma_distinct_owners(slots.drop_last());
        assert forall|i: int| 0 <= i < slots.len() implies ((#[trigger] slots[i]) matches Some(
            owner,
        ) ==> all.contains(owner)) by {
            if let Some(owner) = slots[i] {
                if i < slots.len() - 1 {
                    assert(slots.drop_last()[i] == slots[i]);
                    assert(earlier.contains(owner));
                    let k = choose|k: int| 0 <= k < earlier.len() && earlier[k] == owner;
                    assert(all[k] == owner);
                } else if !earlier.contains(owner) {
                    assert(all[all.len() - 1] == owner);
                }
            }
        }
        assert forall|owner: usize| #[trigger] all.contains(owner) implies slots.contains(
            Some(owner),
        ) by {
            if earlier.contains(owner) {
                assert(slots.drop_last().contains(Some(owner)));
                let k = choose|k: int|
                    0 <= k < slots.drop_last().len() && slots.drop_last()[k] == Some(owner);
                assert(slots[k] == Some(owner));
            } else {
                assert(slots[slots.len() - 1] == Some(owner));
            }
        }
    }
}

impl TableGrid {
    /// Selects the cells of the least rectangle that holds `start` and `end` and
    /// splits no merged cell. `None` where no cell covers one of the two.
    pub fn table_cell_selection_in_grid(
        &self,
        start: TableCellAddress,
        end: TableCellAddress,
    ) -> (r: Option<TableCellSelection>)
        requires
            self.wf(),
        ensures
            r is Some <==> self.owner(start.row as int, start.column as int) is Some && self.owner(
                end.row as int,
                end.column as int,
            ) is Some,
            r matches Some(selection) ==> exists|rect: SlotRect|
                #[trigger] self.least_closed(rect, start, end) && selects(
                    *self,
                    rect,
                    end,
                    selection,
                ),
    {
        let rect = match self.selection_bounds(start, end) {
            Some(rect) => rect,
            None => {
                return None;
            },
        };
        let last = match self.owner_at(end) {
            Some(owner) => owner,
            None => {
                return None;
            },
        };
        Some(self.select_rect(rect, end, last))
    }

    fn select_rect(&self, rect: SlotRect, end: TableCellAddress, last: usize) -> (r:
        TableCellSelection)
        requires
            self.wf(),
            self.inside(rect),
            rect.has(end.row as int, end.column as int),
            self.owner(end.row as int, end.column as int) == Some(last),
        ensures
            selects(*self, rect, end, r),
    {
        let width: usize = rect.last.column - rect.first.column + 1;
        let ghost covered = rect_owners(*self, rect);
        let ghost width_int = width as int;
        let mut owners: Vec<usize> = Vec::new();
        let mut ranges: Vec<SourceSpan> = Vec::new();
        let mut slots: Vec<Option<usize>> = Vec::new();
        let mut primary: usize = 0;
        let mut row: usize = rect.first.row;
        proof {
            assert(covered.take(0) =~= Seq::empty());
        }
        while row <= rect.last.row
            invariant
                self.wf(),
                self.inside(rect),
                covered == rect_owners(*self, rect),
                width == rect.last.column - rect.first.column + 1,
                rect.first.row <= row <= rect.last.row + 1,
                slots@.len() == (row - rect.first.row) * width,
                slots@.len() <= covered.len(),
                owners@ == distinct_owners(covered.take(slots@.len() as int)),
                ranges@ == owners@.map_values(|owner: usize| self.cells@[owner as int]),
                owners@.contains(last) ==> primary == owners@.index_of(last),
                forall|k: int|
                    0 <= k < slots@.len() ==> #[trigger] slots@[k] == (match covered[k] {
                        Some(owner) => Some(owners@.index_of(owner) as usize),
                        None => None,
                    }),
            decreases rect.last.row + 1 - row,
        {
            let mut column: usize = rect.first.column;
            while column <= rect.last.column
                invariant
                    self.wf(),
                    self.inside(rect),
                    covered == rect_owners(*self, rect),
                    width == rect.last.column - rect.first.column + 1,
                    rect.first.row <= row <= rect.last.row,
                    rect.first.column <= column <= rect.last.column + 1,
                    slots@.len() == (row - rect.first.row) * width + (column - rect.first.column),
                    owners@ == distinct_owners(covered.take(slots@.len() as int)),
                    ranges@ == owners@.map_values(|owner: usize| self.cells@[owner as int]),
                    owners@.contains(last) ==> primary == owners@.index_of(last),
                    forall|k: int|
                        0 <= k < slots@.len() ==> #[trigger] slots@[k] == (match covered[k] {
                            Some(owner) => Some(owners@.index_of(owner) as usize),
                            None => None,
                        }),
                decreases rect.last.column + 1 - column,
            {
                let ghost k = slots@.len() as int;
                let ghost before = owners@;
                let found = self.owner_at(TableCellAddress::new(row, column));
                proof {
                    lemma_slot_index(
                        rect.last.row - rect.first.row + 1,
                        width as int,
                        row - rect.first.row,
                        column - rect.first.column,
                    );
                    vstd::arithmetic::div_mod::lemma_fundamental_div_mod_converse(
                        k,
                        width as int,
                        row - rect.first.row,
                        column - rect.first.column,
                    );
                    assert(covered[k] == found);
                    assert(covered.take(k + 1).drop_last() =~= covered.take(k));
                    lemma_distinct_owners(covered.take(k));
                    lemma_distinct_owners(covered.take(k + 1));
                    assert forall|i: int| 0 <= i < k implies ((#[trigger] covered[i]) matches Some(owner)
                        ==> before.contains(owner)) by {
                        assert(covered.take(k)[i] == covered[i]);
                    }
                }
                match found {
                    None => {
                        slots.push(None);
                    },
                    Some(owner) => {
                        match position(&owners, owner) {
                            Some(index) => {
                                slots.push(Some(index));
                            },
                            None => {
                                let index = owners.len();
                                if owner == last {
                                    primary = index;
                                }
                                owners.push(owner);
                                ranges.push(self.cells[owner]);
                                slots.push(Some(index));
                                proof {
                                    assert(owners@[index as int] == owner);
                                    assert forall|other: usize| before.contains(other) implies
                                        owners@.contains(other) && #[trigger] owners@.index_of(
                                        other,
                                    ) == before.index_of(other) by {
                                        let i = before.index_of(other);
                                        assert(owners@[i] == other);
                                    }
                                    assert forall|other: usize|
                                        #[trigger] owners@.contains(other) && other
                                            != owner implies before.contains(other) by {
                                        let i = owners@.index_of(other);
                                        assert(before[i] == other);
                                    }
                                    assert(ranges@ =~= owners@.map_values(
                                        |owner: usize| self.cells@[owner as int],
                                    ));
                                }
                            },
                        }
                    },
                }
                column += 1;
            }
            proof {
                assert((row - rect.first.row) * width + width == (row + 1 - rect.first.row) * width)
                    by (nonlinear_arith);
                assert((row + 1 - rect.first.row) * width <= (rect.last.row - rect.first.row + 1)
                    * width) by (nonlinear_arith)
                    requires
                        row <= rect.last.row,
                        0 <= width,
                ;
            }
            row += 1;
        }
        proof {
            assert(covered.take(slots@.len() as int) =~= covered);
            lemma_distinct_owners(covered);
            lemma_slot_index(
                rect.last.row - rect.first.row + 1,
                width as int,
                end.row - rect.first.row,
                end.column - rect.first.column,
            );
            let k = (end.row - rect.first.row) * width + (end.column - rect.first.column);
            vstd::arithmetic::div_mod::lemma_fundamental_div_mod_converse(
                k,
                width as int,
                end.row - rect.first.row,
                end.column - rect.first.column,
            );
            assert(covered[k] == Some(last));
            assert(slots@ =~= covered.map_values(
                |slot: Option<usize>|
                    match slot {
                        Some(owner) => Some(owners@.index_of(owner) as usize),
                        None => None,
                    },
            ));
        }
        TableCellSelection { ranges, primary, columns: width, slots }
    }
}

/// Where `wanted` stands in `items`.
fn position(items: &Vec<usize>, wanted: usize) -> (r: Option<usize>)
    requires
        items@.no_duplicates(),
    ensures
        r is Some <==> items@.contains(wanted),
        r matches Some(index) ==> index < items@.len() && index == items@.index_of(wanted),
{
    let mut i: usize = 0;
    while i < items.len()
        invariant
            i <= items@.len(),
            items@.no_duplicates(),
            forall|k: int| 0 <= k < i ==> items@[k] != wanted,
        decreases items@.len() - i,
    {
        if items[i] == wanted {
            assert(items@[i as int] == wanted);
            return Some(i);
        }
        i += 1;
    }
    None
}

/// In a selected rectangle no two ranges stand for one cell, and every range
/// covers a slot.
pub proof fn law_selected_ranges_are_distinct(
    grid: TableGrid,
    rect: SlotRect,
    end: TableCellAddress,
    selection: TableCellSelection,
)
    requires
        selects(grid, rect, end, selection),
    ensures
        selection.ranges@.len() == distinct_owners(rect_owners(grid, rect)).len(),
        selection.primary < selection.ranges@.len(),
        distinct_owners(rect_owners(grid, rect)).no_duplicates(),
        forall|i: usize|
            i < selection.ranges@.len() ==> #[trigger] selection.slots@.contains(Some(i)),
        forall|k: int|
            0 <= k < selection.slots@.len() ==> ((#[trigger] selection.slots@[k]) matches Some(i)
                ==> i < selection.ranges@.len()),
{
    let covered = rect_owners(grid, rect);
    let owners = distinct_owners(covered);
    lemma_distinct_owners(covered);
    assert forall|i: usize| i < selection.ranges@.len() implies
        #[trigger] selection.slots@.contains(Some(i)) by {
        let owner = owners[i as int];
        assert(owners.contains(owner));
        let k = choose|k: int| 0 <= k < covered.len() && covered[k] == Some(owner);
        assert(owners.index_of(owner) == i);
        assert(selection.slots@[k] == Some(i));
    }
    assert forall|k: int| 0 <= k < selection.slots@.len() implies (
    (#[trigger] selection.slots@[k]) matches Some(i) ==> i < selection.ranges@.len()) by {
        if let Some(owner) = covered[k] {
            assert(owners.contains(owner));
        }
    }
}

/// A selected rectangle names the cell of each of its slots: the range that a slot names is
/// that of the cell that covers it, and a slot that no cell covers names none. The primary
/// range is that of the cell at `end`, and ranges stand in the order of their first slots.
pub proof fn law_selected_slots_name_their_cells(
    grid: TableGrid,
    rect: SlotRect,
    end: TableCellAddress,
    selection: TableCellSelection,
    row: int,
    column: int,
)
    requires
        grid.wf(),
        grid.inside(rect),
        selects(grid, rect, end, selection),
        rect.has(row, column),
        grid.owner(end.row as int, end.column as int) is Some,
        distinct_owners(rect_owners(grid, rect)).len() <= usize::MAX,
    ensures
        ({
            let width = rect.last.column - rect.first.column + 1;
            let k = (row - rect.first.row) * width + (column - rect.first.column);
            &&& 0 <= k < selection.slots@.len()
            &&& selection.columns == width
            &&& match grid.slots@[row * grid.columns + column] {
                Some(owner) => selection.slots@[k] matches Some(i) && i < selection.ranges@.len()
                    && selection.ranges@[i as int] == grid.cells@[owner as int],
                None => selection.slots@[k] is None,
            }
            &&& match grid.slots@[end.row * grid.columns + end.column] {
                Some(owner) => selection.primary < selection.ranges@.len()
                    && selection.ranges@[selection.primary as int] == grid.cells@[owner as int],
                None => false,
            }
            &&& forall|j: int|
                0 <= j < k && #[trigger] selection.slots@[j] is Some && selection.slots@[k] is Some
                    ==> (selection.slots@[j]->Some_0 <= selection.slots@[k]->Some_0 || exists|m: int|
                    0 <= m < j && #[trigger] selection.slots@[m] == selection.slots@[k])
        }),
{
    let width = rect.last.column - rect.first.column + 1;
    let height = rect.last.row - rect.first.row + 1;
    let k = (row - rect.first.row) * width + (column - rect.first.column);
    let covered = rect_owners(grid, rect);
    let owners = distinct_owners(covered);
    lemma_distinct_owners(covered);
    assert(0 <= k < height * width) by (nonlinear_arith)
        requires
            k == (row - rect.first.row) * width + (column - rect.first.column),
            0 <= row - rect.first.row < height,
            0 <= column - rect.first.column < width,
    ;
    vstd::arithmetic::div_mod::lemma_fundamental_div_mod_converse(
        k,
        width,
        row - rect.first.row,
        column - rect.first.column,
    );
    assert(covered[k] == grid.owner(row, column));
    if let Some(owner) = covered[k] {
        assert(owners.contains(owner));
        let i = owners.index_of(owner);
        assert(selection.slots@[k] == Some(i as usize));
    }
    assert forall|j: int|
        0 <= j < k && #[trigger] selection.slots@[j] is Some && selection.slots@[k] is Some implies (
    selection.slots@[j]->Some_0 <= selection.slots@[k]->Some_0 || exists|m: int|
        0 <= m < j && #[trigger] selection.slots@[m] == selection.slots@[k]) by {
        let a = covered[j]->Some_0;
        let b = covered[k]->Some_0;
        assert(owners.contains(a) && owners.contains(b));
        lemma_first_appearance(covered, j, k);
        if owners.index_of(b) < owners.index_of(a) {
            let m = choose|m: int| 0 <= m < j && #[trigger] covered[m] == covered[k];
            assert(selection.slots@[m] == selection.slots@[k]);
        }
    }
}

/// Of two owners the one that appears first comes first.
proof fn lemma_first_appearance(slots: Seq<Option<usize>>, j: int, k: int)
    requires
        0 <= j < k < slots.len(),
        slots[j] is Some,
        slots[k] is Some,
    ensures
        distinct_owners(slots).contains(slots[j]->Some_0),
        distinct_owners(slots).contains(slots[k]->Some_0),
        distinct_owners(slots).index_of(slots[k]->Some_0) < distinct_owners(slots).index_of(
            slots[j]->Some_0,
        ) ==> exists|m: int| 0 <= m < j && #[trigger] slots[m] == slots[k],
    decreases slots.len(),
{
    lemma_distinct_owners(slots);
    let all = distinct_owners(slots);
    let front = slots.drop_last();
    let earlier = distinct_owners(front);
    lemma_distinct_owners(front);
    let a = slots[j]->Some_0;
    let b = slots[k]->Some_0;
    assert(front[j] == slots[j]);
    assert(earlier.contains(a));
    let at = earlier.index_of(a);
    assert(all[at] == a);
    assert(all.index_of(a) == at);
    if k < slots.len() - 1 {
        lemma_first_appearance(front, j, k);
        assert(front[k] == slots[k]);
        assert(earlier.contains(b));
        assert(all[earlier.index_of(b)] == b);
        assert(all.index_of(b) == earlier.index_of(b));
        if all.index_of(b) < all.index_of(a) {
            let m = choose|m: int| 0 <= m < j && #[trigger] front[m] == front[k];
            assert(slots[m] == slots[k]);
        }
    } else if earlier.contains(b) {
        assert(front.contains(Some(b)));
        assert(all == earlier);
        let n = choose|n: int| 0 <= n < front.len() && front[n] == Some(b);
        if all.index_of(b) < all.index_of(a) {
            lemma_before(front, a, b, j);
            let m = choose|m: int| 0 <= m < j && #[trigger] front[m] == Some(b);
            assert(slots[m] == slots[k]);
        }
    } else {
        assert(all == earlier.push(b));
        assert(all[earlier.len() as int] == b);
        assert(all.index_of(b) == earlier.len());
    }
}

/// An owner that comes before the one of a slot appears before that slot.
proof fn lemma_before(slots: Seq<Option<usize>>, a: usize, b: usize, j: int)
    requires
        0 <= j < slots.len(),
        slots[j] == Some(a),
        distinct_owners(slots).contains(b),
        distinct_owners(slots).index_of(b) < distinct_owners(slots).index_of(a),
    ensures
        exists|m: int| 0 <= m < j && #[trigger] slots[m] == Some(b),
    decreases slots.len(),
{
    lemma_distinct_owners(slots);
    let all = distinct_owners(slots);
    let front = slots.drop_last();
    let earlier = distinct_owners(front);
    lemma_distinct_owners(front);
    assert(all.contains(a));
    if j < slots.len() - 1 {
        assert(front[j] == slots[j]);
        assert(earlier.contains(a));
        assert(all[earlier.index_of(a)] == a);
        assert(all.index_of(a) == earlier.index_of(a));
        let at = all.index_of(b);
        assert(all[at] == b);
        assert(earlier[at] == b);
        assert(earlier.contains(b));
        assert(earlier.index_of(b) == at);
        lemma_before(front, a, b, j);
        let m = choose|m: int| 0 <= m < j && #[trigger] front[m] == Some(b);
        assert(slots[m] == Some(b));
    } else {
        let at = all.index_of(b);
        assert(all[at] == b);
        assert(all[all.index_of(a)] == a);
        assert(at < all.len() - 1 || earlier == all);
        assert(earlier[at] == b);
        assert(earlier.contains(b));
        assert(front.contains(Some(b)));
        let m = choose|m: int| 0 <= m < front.len() && front[m] == Some(b);
        assert(slots[m] == Some(b));
    }
}

} // verus!
