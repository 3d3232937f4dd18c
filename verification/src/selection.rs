//! Carets, selected ranges and selected table cells.
use crate::offset::{ByteOffset, TextRange};
use crate::text::{boundary, lemma_boundary_bounds, text_len};
use vstd::prelude::*;

verus! {

/// The side on which a caret at a soft break is drawn.
#[derive(Clone, Copy, Debug, PartialEq, Eq, Structural)]
pub enum CaretAffinity {
    Upstream,
    Downstream,
}

/// The side to which a position without an image of its own is moved.
#[derive(Clone, Copy, Debug, PartialEq, Eq, Structural)]
pub enum Bias {
    Before,
    After,
}

/// Why a selection was refused.
#[derive(Clone, Copy, Debug, PartialEq, Eq, Structural)]
pub enum SelectionError {
    /// An endpoint is out of bounds or splits a character, there is no range,
    /// or the primary range is not one of them.
    InvalidRange,
    /// The slots form no rectangle, or do not cover exactly the ranges.
    InvalidSlots,
}

/// A caret, or a range between a fixed end and a moving end.
#[derive(Clone, Copy, Debug, PartialEq, Eq, Structural)]
pub struct EditorSelection {
    pub anchor: ByteOffset,
    pub focus: ByteOffset,
    pub affinity: CaretAffinity,
}

/// Whether `offset` is a character boundary of `text`.
pub fn is_boundary(text: &str, offset: ByteOffset) -> (r: bool)
    ensures
        r == boundary(text@, offset.value as int),
{
    if offset.value > text_len(text) as u64 {
        proof {
            if boundary(text@, offset.value as int) {
                lemma_boundary_bounds(text@, offset.value as int);
            }
        }
        return false;
    }
    text.is_char_boundary(offset.value as usize)
}

impl EditorSelection {
    /// Whether both ends are character boundaries of `text`.
    pub open spec fn wf(self, text: Seq<char>) -> bool {
        boundary(text, self.anchor.value as int) && boundary(text, self.focus.value as int)
    }

    /// The selected range, whichever end is the moving one.
    pub open spec fn ordered(self) -> TextRange {
        if self.anchor.value <= self.focus.value {
            TextRange { start: self.anchor, end: self.focus }
        } else {
            TextRange { start: self.focus, end: self.anchor }
        }
    }

    /// The selection from `anchor` to `focus`.
    pub fn range(text: &str, anchor: ByteOffset, focus: ByteOffset, affinity: CaretAffinity) -> (r:
        Result<EditorSelection, SelectionError>)
        ensures
            r == (if boundary(text@, anchor.value as int) && boundary(text@, focus.value as int) {
                Ok(EditorSelection { anchor, focus, affinity })
            } else {
                Err(SelectionError::InvalidRange)
            }),
    {
        if is_boundary(text, anchor) && is_boundary(text, focus) {
            Ok(EditorSelection { anchor, focus, affinity })
        } else {
            Err(SelectionError::InvalidRange)
        }
    }

    /// The caret at `at`.
    pub fn cursor(text: &str, at: ByteOffset, affinity: CaretAffinity) -> (r: Result<
        EditorSelection,
        SelectionError,
    >)
        ensures
            r == (if boundary(text@, at.value as int) {
                Ok(EditorSelection { anchor: at, focus: at, affinity })
            } else {
                Err(SelectionError::InvalidRange)
            }),
    {
        EditorSelection::range(text, at, at, affinity)
    }

    /// The fixed end.
    pub fn anchor(self) -> (r: ByteOffset)
        ensures
            r == self.anchor,
    {
        self.anchor
    }

    /// The moving end.
    pub fn focus(self) -> (r: ByteOffset)
        ensures
            r == self.focus,
    {
        self.focus
    }

    /// The side on which the caret is drawn.
    pub fn affinity(self) -> (r: CaretAffinity)
        ensures
            r == self.affinity,
    {
        self.affinity
    }

    /// Whether nothing is selected.
    pub fn is_empty(self) -> (r: bool)
        ensures
            r == (self.anchor == self.focus),
    {
        self.anchor.value == self.focus.value
    }

    /// The selected range, whichever end is the moving one.
    pub fn ordered_range(self) -> (r: TextRange)
        ensures
            r == self.ordered(),
            r.wf(),
    {
        if self.anchor.value <= self.focus.value {
            TextRange { start: self.anchor, end: self.focus }
        } else {
            TextRange { start: self.focus, end: self.anchor }
        }
    }
}

/// The rectangle of a table that a selection of whole cells covers: for each
/// slot, in row-major order, which of the selected ranges owns it.
#[derive(Debug)]
pub struct TableSlots {
    pub columns: usize,
    pub slots: Vec<Option<usize>>,
}

/// Whether `slots` form rows of `columns` slots, name only the first `count`
/// ranges, and name each of them.
pub open spec fn slots_cover(columns: usize, slots: Seq<Option<usize>>, count: int) -> bool {
    &&& columns > 0
    &&& slots.len() % (columns as nat) == 0
    &&& forall|k: int|
        0 <= k < slots.len() ==> ((#[trigger] slots[k]) matches Some(i) ==> i < count)
    &&& forall|i: usize| i < count ==> #[trigger] slots.contains(Some(i))
}

/// One or more selections. One of them is the primary one.
#[derive(Debug)]
pub struct Selections {
    pub ranges: Vec<EditorSelection>,
    pub primary: usize,
    pub table: Option<TableSlots>,
}

impl Selections {
    /// Whether the selections address `text` and the slots, if any, fit them.
    pub open spec fn wf(self, text: Seq<char>) -> bool {
        &&& self.primary < self.ranges@.len()
        &&& forall|i: int| 0 <= i < self.ranges@.len() ==> (#[trigger] self.ranges@[i]).wf(text)
        &&& self.table matches Some(table) ==> slots_cover(
            table.columns,
            table.slots@,
            self.ranges@.len() as int,
        )
    }

    /// The width of the selected rectangle of cells.
    pub open spec fn columns(self) -> Option<usize> {
        match self.table {
            Some(table) => Some(table.columns),
            None => None,
        }
    }

    /// The given selections, with `primary` as the primary one.
    pub fn new(text: &str, ranges: Vec<EditorSelection>, primary: usize) -> (r: Result<
        Selections,
        SelectionError,
    >)
        ensures
            ({
                let valid = primary < ranges@.len() && forall|i: int|
                    0 <= i < ranges@.len() ==> (#[trigger] ranges@[i]).wf(text@);
                &&& r is Ok <==> valid
                &&& r matches Ok(made) ==> made.ranges == ranges && made.primary == primary
                    && made.table is None && made.wf(text@)
                &&& r matches Err(e) ==> e == SelectionError::InvalidRange
            }),
    {
        if primary >= ranges.len() {
            return Err(SelectionError::InvalidRange);
        }
        let mut i: usize = 0;
        while i < ranges.len()
            invariant
                i <= ranges@.len(),
                forall|k: int| 0 <= k < i ==> (#[trigger] ranges@[k]).wf(text@),
            decreases ranges@.len() - i,
        {
            if !is_boundary(text, ranges[i].anchor) || !is_boundary(text, ranges[i].focus) {
                assert(!ranges@[i as int].wf(text@));
                return Err(SelectionError::InvalidRange);
            }
            i += 1;
        }
        Ok(Selections { ranges, primary, table: None })
    }

    /// The same selections as the cells of a table rectangle.
    pub fn with_table_slots(self, columns: usize, slots: Vec<Option<usize>>) -> (r: Result<
        Selections,
        SelectionError,
    >)
        ensures
            r is Ok <==> slots_cover(columns, slots@, self.ranges@.len() as int),
            r matches Ok(made) ==> {
                &&& made.ranges == self.ranges
                &&& made.primary == self.primary
                &&& made.table == Some(TableSlots { columns, slots })
            },
            r matches Err(e) ==> e == SelectionError::InvalidSlots,
    {
        if columns == 0 || slots.len() % columns != 0 {
            return Err(SelectionError::InvalidSlots);
        }
        let count = self.ranges.len();
        let mut i: usize = 0;
        while i < slots.len()
            invariant
                i <= slots@.len(),
                count == self.ranges@.len(),
                forall|k: int|
                    0 <= k < i ==> ((#[trigger] slots@[k]) matches Some(index) ==> index < count),
            decreases slots@.len() - i,
        {
            if let Some(index) = slots[i] {
                if index >= count {
                    return Err(SelectionError::InvalidSlots);
                }
            }
            i += 1;
        }
        let mut wanted: usize = 0;
        while wanted < count
            invariant
                wanted <= count,
                count == self.ranges@.len(),
                forall|k: usize| k < wanted ==> #[trigger] slots@.contains(Some(k)),
            decreases count - wanted,
        {
            if !names_range(&slots, wanted) {
                return Err(SelectionError::InvalidSlots);
            }
            wanted += 1;
        }
        Ok(
            Selections {
                ranges: self.ranges,
                primary: self.primary,
                table: Some(TableSlots { columns, slots }),
            },
        )
    }

    /// The number of selections.
    pub fn len(&self) -> (r: usize)
        ensures
            r == self.ranges@.len(),
    {
        self.ranges.len()
    }

    /// Whether there is more than one selection.
    pub fn is_multiple(&self) -> (r: bool)
        ensures
            r == (self.ranges@.len() > 1),
    {
        self.ranges.len() > 1
    }

    /// The primary selection.
    pub fn primary(&self) -> (r: EditorSelection)
        requires
            self.primary < self.ranges@.len(),
        ensures
            r == self.ranges@[self.primary as int],
    {
        self.ranges[self.primary]
    }

    /// Which selection is the primary one.
    pub fn primary_index(&self) -> (r: usize)
        ensures
            r == self.primary,
    {
        self.primary
    }

    /// The width of the selected rectangle of cells.
    pub fn table_columns(&self) -> (r: Option<usize>)
        ensures
            r == self.columns(),
    {
        match &self.table {
            Some(table) => Some(table.columns),
            None => None,
        }
    }

    /// Other selections that say the same.
    pub fn duplicate(&self) -> (r: Selections)
        ensures
            r.ranges@ == self.ranges@,
            r.primary == self.primary,
            r.columns() == self.columns(),
            r.table is Some == self.table is Some,
            self.table is Some ==> r.table->0.slots@ == self.table->0.slots@,
            forall|text: Seq<char>| self.wf(text) ==> r.wf(text),
    {
        let ranges = copy_ranges(&self.ranges);
        let table = match &self.table {
            Some(table) => Some(
                TableSlots { columns: table.columns, slots: copy_slots(&table.slots) },
            ),
            None => None,
        };
        Selections { ranges, primary: self.primary, table }
    }
}

fn copy_ranges(ranges: &Vec<EditorSelection>) -> (r: Vec<EditorSelection>)
    ensures
        r@ == ranges@,
{
    let mut out: Vec<EditorSelection> = Vec::new();
    let mut i: usize = 0;
    while i < ranges.len()
        invariant
            i <= ranges@.len(),
            out@ == ranges@.take(i as int),
        decreases ranges@.len() - i,
    {
        out.push(ranges[i]);
        i += 1;
        assert(out@ =~= ranges@.take(i as int));
    }
    assert(ranges@.take(i as int) =~= ranges@);
    out
}

/// A copy of `slots`.
pub fn copy_slots(slots: &Vec<Option<usize>>) -> (r: Vec<Option<usize>>)
    ensures
        r@ == slots@,
{
    let mut out: Vec<Option<usize>> = Vec::new();
    let mut i: usize = 0;
    while i < slots.len()
        invariant
            i <= slots@.len(),
            out@ == slots@.take(i as int),
        decreases slots@.len() - i,
    {
        out.push(slots[i]);
        i += 1;
        assert(out@ =~= slots@.take(i as int));
    }
    assert(slots@.take(i as int) =~= slots@);
    out
}

fn names_range(slots: &Vec<Option<usize>>, wanted: usize) -> (r: bool)
    ensures
        r == slots@.contains(Some(wanted)),
{
    let mut i: usize = 0;
    while i < slots.len()
        invariant
            i <= slots@.len(),
            forall|k: int| 0 <= k < i ==> slots@[k] != Some(wanted),
        decreases slots@.len() - i,
    {
        if let Some(index) = slots[i] {
            if index == wanted {
                assert(slots@[i as int] == Some(wanted));
                return true;
            }
        }
        i += 1;
    }
    false
}

/// The side to which the caret's affinity moves a position.
pub fn projection_bias(affinity: CaretAffinity) -> (r: Bias)
    ensures
        r == (match affinity {
            CaretAffinity::Upstream => Bias::Before,
            CaretAffinity::Downstream => Bias::After,
        }),
{
    match affinity {
        CaretAffinity::Upstream => Bias::Before,
        CaretAffinity::Downstream => Bias::After,
    }
}

/// A selected range runs from the lower of its two ends to the higher, whichever of them
/// moves.
pub proof fn law_selected_range_is_between_the_ends(selection: EditorSelection)
    ensures
        ({
            let range = selection.ordered();
            let turned = EditorSelection {
                anchor: selection.focus,
                focus: selection.anchor,
                affinity: selection.affinity,
            };
            &&& range.start.value <= range.end.value
            &&& range.start == selection.anchor && range.end == selection.focus || range.start
                == selection.focus && range.end == selection.anchor
            &&& turned.ordered() == range
        }),
{
    if selection.anchor.value == selection.focus.value {
        assert(selection.anchor == selection.focus);
    }
}

} // verus!
