//! Boxes in a line of text: images and the check boxes of tasks.
use crate::geometry::{moved, shift_range, LayoutError};
use crate::offset::TextRange;
use crate::visual::{VisualOffset, VisualRange};
use vstd::prelude::*;

verus! {

/// Whether a task is done.
#[derive(Clone, Copy, Debug, PartialEq, Eq, Structural)]
pub enum TaskState {
    Open,
    Done,
}

/// An image's source and that of its alternative text.
#[derive(Clone, Copy, Debug, PartialEq, Eq, Structural)]
pub struct ImageSpan {
    pub source: TextRange,
    pub label: TextRange,
}

/// A check box's source and state.
#[derive(Clone, Copy, Debug, PartialEq, Eq, Structural)]
pub struct CheckboxSpan {
    pub source: TextRange,
    pub state: TaskState,
}

/// What stands in a box.
#[derive(Clone, Copy, Debug, PartialEq, Eq, Structural)]
pub enum BlockWidget {
    Image(ImageSpan),
    Checkbox(CheckboxSpan),
}

/// A box of a finished layout: which widget, where it is anchored, and in which line.
#[derive(Clone, Copy, Debug, PartialEq, Eq, Structural)]
pub struct WidgetBox {
    pub widget: u32,
    pub visual: VisualOffset,
    pub line: usize,
}

/// A box together with the source it stands for. `place` is its number among the boxes
/// of the layout, by which its bounds are found.
#[derive(Clone, Copy, Debug, PartialEq, Eq, Structural)]
pub struct PlacedWidget {
    pub source: TextRange,
    pub visual: VisualRange,
    pub line: usize,
    pub place: usize,
}

impl PlacedWidget {
    /// The source that the box stands for.
    pub fn source(self) -> (r: TextRange)
        ensures
            r == self.source,
    {
        self.source
    }

    /// Where the box is anchored. The range is empty.
    pub fn visual(self) -> (r: VisualRange)
        ensures
            r == self.visual,
    {
        self.visual
    }

    /// The line that the box is in.
    pub fn line(self) -> (r: usize)
        ensures
            r == self.line,
    {
        self.line
    }

    fn shifted(self, delta: i64) -> (r: Result<PlacedWidget, LayoutError>)
        ensures
            match moved(self.source, delta) {
                Ok(source) => r == Ok::<PlacedWidget, LayoutError>(
                    PlacedWidget { source, ..self },
                ),
                Err(error) => r == Err::<PlacedWidget, LayoutError>(error),
            },
    {
        match shift_range(self.source, delta) {
            Ok(source) => Ok(PlacedWidget { source, ..self }),
            Err(error) => Err(error),
        }
    }
}

/// An image's box.
#[derive(Clone, Copy, Debug, PartialEq, Eq, Structural)]
pub struct ImagePlacement {
    pub placed: PlacedWidget,
    pub label: TextRange,
}

impl ImagePlacement {
    /// The box.
    pub fn placed(self) -> (r: PlacedWidget)
        ensures
            r == self.placed,
    {
        self.placed
    }

    /// The source of the image.
    pub fn source(self) -> (r: TextRange)
        ensures
            r == self.placed.source,
    {
        self.placed.source
    }

    /// The source of its alternative text.
    pub fn label(self) -> (r: TextRange)
        ensures
            r == self.label,
    {
        self.label
    }

    /// Where the box is anchored.
    pub fn visual(self) -> (r: VisualRange)
        ensures
            r == self.placed.visual,
    {
        self.placed.visual
    }

    /// The line that the box is in.
    pub fn line(self) -> (r: usize)
        ensures
            r == self.placed.line,
    {
        self.placed.line
    }

    /// The same box where the source moved by `delta` bytes.
    pub fn shifted(self, delta: i64) -> (r: Result<ImagePlacement, LayoutError>)
        ensures
            match (moved(self.placed.source, delta), moved(self.label, delta)) {
                (Ok(source), Ok(label)) => r == Ok::<ImagePlacement, LayoutError>(
                    ImagePlacement { placed: PlacedWidget { source, ..self.placed }, label },
                ),
                _ => r == Err::<ImagePlacement, LayoutError>(LayoutError::OffsetOverflow),
            },
    {
        match (self.placed.shifted(delta), shift_range(self.label, delta)) {
            (Ok(placed), Ok(label)) => Ok(ImagePlacement { placed, label }),
            _ => Err(LayoutError::OffsetOverflow),
        }
    }
}

/// A check box's box.
#[derive(Clone, Copy, Debug, PartialEq, Eq, Structural)]
pub struct CheckboxPlacement {
    pub placed: PlacedWidget,
    pub state: TaskState,
}

impl CheckboxPlacement {
    /// The box.
    pub fn placed(self) -> (r: PlacedWidget)
        ensures
            r == self.placed,
    {
        self.placed
    }

    /// The three bytes of the brackets.
    pub fn source(self) -> (r: TextRange)
        ensures
            r == self.placed.source,
    {
        self.placed.source
    }

    /// Whether the task is done.
    pub fn state(self) -> (r: TaskState)
        ensures
            r == self.state,
    {
        self.state
    }

    /// The line that the box is in.
    pub fn line(self) -> (r: usize)
        ensures
            r == self.placed.line,
    {
        self.placed.line
    }

    /// The same box where the source moved by `delta` bytes.
    pub fn shifted(self, delta: i64) -> (r: Result<CheckboxPlacement, LayoutError>)
        ensures
            match moved(self.placed.source, delta) {
                Ok(source) => r == Ok::<CheckboxPlacement, LayoutError>(
                    CheckboxPlacement {
                        placed: PlacedWidget { source, ..self.placed },
                        state: self.state,
                    },
                ),
                Err(error) => r == Err::<CheckboxPlacement, LayoutError>(error),
            },
    {
        match self.placed.shifted(delta) {
            Ok(placed) => Ok(CheckboxPlacement { placed, state: self.state }),
            Err(error) => Err(error),
        }
    }
}

/// All boxes of a block, by kind. Only images can be higher than their line, so only
/// they are asked before the lines when a point is looked up.
#[derive(Debug)]
pub struct WidgetPlacements {
    pub images: Vec<ImagePlacement>,
    pub checkboxes: Vec<CheckboxPlacement>,
}

/// The boxes of a block, as sequences.
pub struct PlacementsView {
    pub images: Seq<ImagePlacement>,
    pub checkboxes: Seq<CheckboxPlacement>,
}

/// Where a box of a layout stands in its block. In a table the boxes of a cell count
/// from the cell's own start, and their line is the cell's row.
pub open spec fn placed_at(
    widget: WidgetBox,
    place: int,
    base: VisualOffset,
    row: Option<usize>,
    source: TextRange,
) -> PlacedWidget {
    let at = VisualOffset {
        value: if widget.visual.value + base.value > u64::MAX {
            u64::MAX
        } else {
            (widget.visual.value + base.value) as u64
        },
    };
    PlacedWidget {
        source,
        visual: VisualRange { start: at, end: at },
        line: match row {
            Some(row) => row,
            None => widget.line,
        },
        place: place as usize,
    }
}

/// The boxes together with what stands in them: those of `boxes` up to `count` behind
/// `before`, numbered from `first`. `None` where a box has no widget.
pub open spec fn placements(
    before: PlacementsView,
    widgets: Seq<BlockWidget>,
    boxes: Seq<WidgetBox>,
    first: int,
    base: VisualOffset,
    row: Option<usize>,
    count: int,
) -> Option<PlacementsView>
    decreases count,
{
    if count <= 0 {
        Some(before)
    } else {
        let item = boxes[count - 1];
        match placements(before, widgets, boxes, first, base, row, count - 1) {
            None => None,
            Some(so_far) => if item.widget >= widgets.len() {
                None
            } else {
                match widgets[item.widget as int] {
                    BlockWidget::Image(image) => Some(
                        PlacementsView {
                            images: so_far.images.push(
                                ImagePlacement {
                                    placed: placed_at(
                                        item,
                                        first + count - 1,
                                        base,
                                        row,
                                        image.source,
                                    ),
                                    label: image.label,
                                },
                            ),
                            ..so_far
                        },
                    ),
                    BlockWidget::Checkbox(checkbox) => Some(
                        PlacementsView {
                            checkboxes: so_far.checkboxes.push(
                                CheckboxPlacement {
                                    placed: placed_at(
                                        item,
                                        first + count - 1,
                                        base,
                                        row,
                                        checkbox.source,
                                    ),
                                    state: checkbox.state,
                                },
                            ),
                            ..so_far
                        },
                    ),
                }
            },
        }
    }
}

/// The first box from `from` on without a widget, or the number of boxes.
pub open spec fn unknown_from(boxes: Seq<WidgetBox>, widgets: int, from: int) -> int
    decreases boxes.len() - from,
{
    if 0 <= from < boxes.len() && boxes[from].widget < widgets {
        unknown_from(boxes, widgets, from + 1)
    } else {
        from
    }
}

impl WidgetPlacements {
    /// The boxes as sequences.
    pub open spec fn view(&self) -> PlacementsView {
        PlacementsView { images: self.images@, checkboxes: self.checkboxes@ }
    }

    /// No box.
    pub fn new() -> (r: WidgetPlacements)
        ensures
            r.images@ == Seq::<ImagePlacement>::empty(),
            r.checkboxes@ == Seq::<CheckboxPlacement>::empty(),
    {
        WidgetPlacements { images: Vec::new(), checkboxes: Vec::new() }
    }

    /// Adds the boxes of one layout, numbered from `first`.
    fn add(
        &mut self,
        widgets: &[BlockWidget],
        boxes: &[WidgetBox],
        first: usize,
        base: VisualOffset,
        row: Option<usize>,
    ) -> (r: Result<(), LayoutError>)
        requires
            first + boxes@.len() <= usize::MAX,
        ensures
            match placements(
                old(self).view(),
                widgets@,
                boxes@,
                first as int,
                base,
                row,
                boxes@.len() as int,
            ) {
                Some(all) => r is Ok && final(self).view() == all,
                None => {
                    let bad = unknown_from(boxes@, widgets@.len() as int, 0);
                    bad < boxes@.len() && r == Err::<(), LayoutError>(
                        LayoutError::UnknownWidget(boxes@[bad].widget),
                    )
                },
            },
    {
        let mut i: usize = 0;
        while i < boxes.len()
            invariant
                i <= boxes@.len(),
                first + boxes@.len() <= usize::MAX,
                unknown_from(boxes@, widgets@.len() as int, i as int) == unknown_from(
                    boxes@,
                    widgets@.len() as int,
                    0,
                ),
                placements(
                    old(self).view(),
                    widgets@,
                    boxes@,
                    first as int,
                    base,
                    row,
                    i as int,
                ) == Some(self.view()),
            decreases boxes@.len() - i,
        {
            let item = boxes[i];
            let id = item.widget as usize;
            if id >= widgets.len() {
                proof {
                    lemma_unplaced(
                        old(self).view(),
                        widgets@,
                        boxes@,
                        first as int,
                        base,
                        row,
                        i + 1,
                        boxes@.len() as int,
                    );
                }
                return Err(LayoutError::UnknownWidget(item.widget));
            }
            let at = VisualOffset::new(item.visual.value.saturating_add(base.value));
            let visual = VisualRange { start: at, end: at };
            let line = match row {
                Some(row) => row,
                None => item.line,
            };
            match widgets[id] {
                BlockWidget::Image(image) => self.images.push(
                    ImagePlacement {
                        placed: PlacedWidget {
                            source: image.source,
                            visual,
                            line,
                            place: first + i,
                        },
                        label: image.label,
                    },
                ),
                BlockWidget::Checkbox(checkbox) => self.checkboxes.push(
                    CheckboxPlacement {
                        placed: PlacedWidget {
                            source: checkbox.source,
                            visual,
                            line,
                            place: first + i,
                        },
                        state: checkbox.state,
                    },
                ),
            }
            i += 1;
        }
        Ok(())
    }
}

proof fn lemma_unplaced(
    before: PlacementsView,
    widgets: Seq<BlockWidget>,
    boxes: Seq<WidgetBox>,
    first: int,
    base: VisualOffset,
    row: Option<usize>,
    at: int,
    count: int,
)
    requires
        at <= count,
        placements(before, widgets, boxes, first, base, row, at) is None,
    ensures
        placements(before, widgets, boxes, first, base, row, count) is None,
    decreases count - at,
{
    if at < count {
        lemma_unplaced(before, widgets, boxes, first, base, row, at, count - 1);
    }
}

/// Joins the boxes of a block's layout to what stands in them, in order. A box without
/// a widget is an error: no box is ever left out.
pub fn build_widget_placements(widgets: &[BlockWidget], boxes: &[WidgetBox]) -> (r: Result<
    WidgetPlacements,
    LayoutError,
>)
    ensures
        match placements(
            PlacementsView { images: Seq::empty(), checkboxes: Seq::empty() },
            widgets@,
            boxes@,
            0,
            VisualOffset { value: 0 },
            None,
            boxes@.len() as int,
        ) {
            Some(all) => r is Ok && r->Ok_0.view() == all,
            None => {
                let bad = unknown_from(boxes@, widgets@.len() as int, 0);
                bad < boxes@.len() && r == Err::<WidgetPlacements, LayoutError>(
                    LayoutError::UnknownWidget(boxes@[bad].widget),
                )
            },
        },
{
    let mut out = WidgetPlacements::new();
    assert(boxes@.len() == boxes.len());
    match out.add(widgets, boxes, 0, VisualOffset::new(0), None) {
        Ok(_) => Ok(out),
        Err(error) => Err(error),
    }
}

/// A cell of a table: its row and where its text begins in the block's text.
#[derive(Clone, Copy, Debug, PartialEq, Eq, Structural)]
pub struct WidgetCell {
    pub row: usize,
    pub start: VisualOffset,
}

/// How many boxes the first `count` layouts have.
pub open spec fn boxes_before(layouts: Seq<Vec<WidgetBox>>, count: int) -> int
    decreases count,
{
    if count <= 0 {
        0
    } else {
        boxes_before(layouts, count - 1) + layouts[count - 1]@.len()
    }
}

/// The boxes of the first `count` cells, or why there are none.
pub open spec fn table_placements(
    widgets: Seq<BlockWidget>,
    cells: Seq<WidgetCell>,
    layouts: Seq<Vec<WidgetBox>>,
    count: int,
) -> Result<PlacementsView, LayoutError>
    decreases count,
{
    if count <= 0 {
        Ok(PlacementsView { images: Seq::empty(), checkboxes: Seq::empty() })
    } else {
        match table_placements(widgets, cells, layouts, count - 1) {
            Err(error) => Err(error),
            Ok(before) => if count > layouts.len() {
                Err(LayoutError::TableCell)
            } else {
                let boxes = layouts[count - 1]@;
                match placements(
                    before,
                    widgets,
                    boxes,
                    boxes_before(layouts, count - 1),
                    cells[count - 1].start,
                    Some(cells[count - 1].row),
                    boxes.len() as int,
                ) {
                    Some(all) => Ok(all),
                    None => Err(
                        LayoutError::UnknownWidget(
                            boxes[unknown_from(boxes, widgets.len() as int, 0)].widget,
                        ),
                    ),
                }
            },
        }
    }
}

proof fn lemma_boxes_grow(layouts: Seq<Vec<WidgetBox>>, a: int, b: int)
    requires
        0 <= a <= b <= layouts.len(),
    ensures
        0 <= boxes_before(layouts, a) <= boxes_before(layouts, b),
    decreases b,
{
    if a < b {
        lemma_boxes_grow(layouts, a, b - 1);
    } else if a > 0 {
        lemma_boxes_grow(layouts, a - 1, a - 1);
    }
}

proof fn lemma_table_failed(
    widgets: Seq<BlockWidget>,
    cells: Seq<WidgetCell>,
    layouts: Seq<Vec<WidgetBox>>,
    at: int,
    count: int,
)
    requires
        at <= count,
        table_placements(widgets, cells, layouts, at) is Err,
    ensures
        table_placements(widgets, cells, layouts, count) == table_placements(
            widgets,
            cells,
            layouts,
            at,
        ),
    decreases count - at,
{
    if at < count {
        lemma_table_failed(widgets, cells, layouts, at, count - 1);
    }
}

/// Joins the boxes of a table's cells to what stands in them. Every cell has a layout
/// of its own; a box's line is the row of its cell.
pub fn build_table_widget_placements(
    widgets: &[BlockWidget],
    cells: &[WidgetCell],
    layouts: &[Vec<WidgetBox>],
) -> (r: Result<WidgetPlacements, LayoutError>)
    requires
        boxes_before(layouts@, layouts@.len() as int) <= usize::MAX,
    ensures
        match table_placements(widgets@, cells@, layouts@, cells@.len() as int) {
            Ok(all) => r is Ok && r->Ok_0.view() == all,
            Err(error) => r == Err::<WidgetPlacements, LayoutError>(error),
        },
{
    let mut out = WidgetPlacements::new();
    let mut first: usize = 0;
    let mut i: usize = 0;
    while i < cells.len()
        invariant
            i <= cells@.len(),
            i <= layouts@.len(),
            boxes_before(layouts@, layouts@.len() as int) <= usize::MAX,
            first == boxes_before(layouts@, i as int),
            table_placements(widgets@, cells@, layouts@, i as int) == Ok::<
                PlacementsView,
                LayoutError,
            >(out.view()),
        decreases cells@.len() - i,
    {
        if i >= layouts.len() {
            proof {
                lemma_table_failed(widgets@, cells@, layouts@, i + 1, cells@.len() as int);
            }
            return Err(LayoutError::TableCell);
        }
        proof {
            lemma_boxes_grow(layouts@, i + 1, layouts@.len() as int);
        }
        let cell = cells[i];
        match out.add(widgets, layouts[i].as_slice(), first, cell.start, Some(cell.row)) {
            Ok(_) => {},
            Err(error) => {
                proof {
                    lemma_table_failed(widgets@, cells@, layouts@, i + 1, cells@.len() as int);
                }
                return Err(error);
            },
        }
        first = first + layouts[i].len();
        i += 1;
    }
    Ok(out)
}

/// The image that a widget is, or `None` where it is none.
pub fn image_of(widgets: &[BlockWidget], widget: u32) -> (r: Option<ImageSpan>)
    ensures
        r == (if widget < widgets@.len() {
            match widgets@[widget as int] {
                BlockWidget::Image(image) => Some(image),
                BlockWidget::Checkbox(_) => None,
            }
        } else {
            None
        }),
{
    if (widget as usize) < widgets.len() {
        match widgets[widget as usize] {
            BlockWidget::Image(image) => Some(image),
            BlockWidget::Checkbox(_) => None,
        }
    } else {
        None
    }
}

/// An image's size in pixels, by the image's source. One address may occur more than
/// once in a document, a place only once.
#[derive(Clone, Copy, Debug, PartialEq, Eq, Structural)]
pub struct ImageSize {
    pub source: TextRange,
    pub width: u32,
    pub height: u32,
}

/// The first size of the image from `from` on, or the number of sizes.
pub open spec fn size_from(sizes: Seq<ImageSize>, source: TextRange, from: int) -> int
    decreases sizes.len() - from,
{
    if 0 <= from < sizes.len() && sizes[from].source != source {
        size_from(sizes, source, from + 1)
    } else {
        from
    }
}

/// The size of an image, or `None` while it is not known.
pub fn size_of(sizes: &[ImageSize], image: ImageSpan) -> (r: Option<ImageSize>)
    ensures
        ({
            let at = size_from(sizes@, image.source, 0);
            r == (if at < sizes@.len() {
                Some(sizes@[at])
            } else {
                None
            })
        }),
{
    let mut i: usize = 0;
    while i < sizes.len() && sizes[i].source != image.source
        invariant
            i <= sizes@.len(),
            size_from(sizes@, image.source, i as int) == size_from(sizes@, image.source, 0),
        decreases sizes@.len() - i,
    {
        i += 1;
    }
    if i < sizes.len() {
        Some(sizes[i])
    } else {
        None
    }
}

/// Whether `placed` is where box `item` of a layout stands: as far behind the layout's own
/// start as the box says, in the row of its cell if it has one.
pub open spec fn stands_at(
    placed: PlacedWidget,
    item: WidgetBox,
    place: int,
    base: VisualOffset,
    row: Option<usize>,
) -> bool {
    &&& placed.visual.start == placed.visual.end
    &&& item.visual.value + base.value <= u64::MAX ==> placed.visual.start.value
        - base.value == item.visual.value
    &&& placed.line == row.unwrap_or(item.line)
    &&& place <= usize::MAX ==> placed.place == place
}

/// Every box of a layout is placed once, with what stands in it: an image among the images
/// and a checkbox among the checkboxes, each behind those that were there before. `k` is the
/// number of a box.
pub proof fn law_every_box_is_placed(
    before: PlacementsView,
    widgets: Seq<BlockWidget>,
    boxes: Seq<WidgetBox>,
    first: int,
    base: VisualOffset,
    row: Option<usize>,
    count: int,
    k: int,
)
    requires
        0 <= k < count <= boxes.len(),
        0 <= first,
        placements(before, widgets, boxes, first, base, row, count) is Some,
    ensures
        ({
            let made = placements(before, widgets, boxes, first, base, row, count)->Some_0;
            &&& made.images.len() + made.checkboxes.len() == before.images.len()
                + before.checkboxes.len() + count
            &&& before.images.is_prefix_of(made.images)
            &&& before.checkboxes.is_prefix_of(made.checkboxes)
            &&& boxes[k].widget < widgets.len()
            &&& match widgets[boxes[k].widget as int] {
                BlockWidget::Image(image) => exists|m: int|
                    before.images.len() <= m < made.images.len() && stands_at(
                        (#[trigger] made.images[m]).placed,
                        boxes[k],
                        first + k,
                        base,
                        row,
                    ) && made.images[m].placed.source == image.source && made.images[m].label
                        == image.label,
                BlockWidget::Checkbox(checkbox) => exists|m: int|
                    before.checkboxes.len() <= m < made.checkboxes.len() && stands_at(
                        (#[trigger] made.checkboxes[m]).placed,
                        boxes[k],
                        first + k,
                        base,
                        row,
                    ) && made.checkboxes[m].placed.source == checkbox.source
                        && made.checkboxes[m].state == checkbox.state,
            }
        }),
    decreases count,
{
    let made = placements(before, widgets, boxes, first, base, row, count)->Some_0;
    let so_far = placements(before, widgets, boxes, first, base, row, count - 1)->Some_0;
    if count > 1 {
        law_every_box_is_placed(
            before,
            widgets,
            boxes,
            first,
            base,
            row,
            count - 1,
            if k < count - 1 {
                k
            } else {
                0
            },
        );
    } else {
        assert(so_far == before);
    }
    if k < count - 1 {
        match widgets[boxes[k].widget as int] {
            BlockWidget::Image(image) => {
                let m = choose|m: int|
                    before.images.len() <= m < so_far.images.len() && stands_at(
                        (#[trigger] so_far.images[m]).placed,
                        boxes[k],
                        first + k,
                        base,
                        row,
                    ) && so_far.images[m].placed.source == image.source && so_far.images[m].label
                        == image.label;
                assert(made.images[m] == so_far.images[m]);
            },
            BlockWidget::Checkbox(checkbox) => {
                let m = choose|m: int|
                    before.checkboxes.len() <= m < so_far.checkboxes.len() && stands_at(
                        (#[trigger] so_far.checkboxes[m]).placed,
                        boxes[k],
                        first + k,
                        base,
                        row,
                    ) && so_far.checkboxes[m].placed.source == checkbox.source
                        && so_far.checkboxes[m].state == checkbox.state;
                assert(made.checkboxes[m] == so_far.checkboxes[m]);
            },
        }
    } else {
        match widgets[boxes[k].widget as int] {
            BlockWidget::Image(_) => {
                assert(stands_at(
                    made.images[so_far.images.len() as int].placed,
                    boxes[k],
                    first + k,
                    base,
                    row,
                ));
            },
            BlockWidget::Checkbox(_) => {
                assert(stands_at(
                    made.checkboxes[so_far.checkboxes.len() as int].placed,
                    boxes[k],
                    first + k,
                    base,
                    row,
                ));
            },
        }
    }
}

/// The size of an image is the first one that was noted for its source.
pub proof fn law_first_size_counts(sizes: Seq<ImageSize>, source: TextRange, k: int)
    requires
        0 <= k < sizes.len(),
    ensures
        0 <= size_from(sizes, source, 0) <= sizes.len(),
        k < size_from(sizes, source, 0) ==> sizes[k].source != source,
        k == size_from(sizes, source, 0) ==> sizes[k].source == source,
{
    lemma_size_from(sizes, source, 0);
}

proof fn lemma_size_from(sizes: Seq<ImageSize>, source: TextRange, from: int)
    requires
        0 <= from <= sizes.len(),
    ensures
        ({
            let at = size_from(sizes, source, from);
            &&& from <= at <= sizes.len()
            &&& forall|k: int| from <= k < at ==> (#[trigger] sizes[k]).source != source
            &&& at < sizes.len() ==> sizes[at].source == source
        }),
    decreases sizes.len() - from,
{
    if from < sizes.len() && sizes[from].source != source {
        lemma_size_from(sizes, source, from + 1);
    }
}

} // verus!
