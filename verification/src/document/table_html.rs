//! Copying and editing HTML tables by their own tags.
use crate::document::error::EditorDocumentError;
use crate::document::table_paste::{lemma_woven_gaps, lemma_woven_push, woven};
use crate::edit::{
    edit_views, edits_within, ordered_edits, rewrite, rewritten, Edit, EditView,
};
use crate::grid::SourceSpan;
use crate::html::{
    ascii_blank, attribute_wf, span_is_valid, span_wf, tag_is_valid, tag_wf, HtmlAlignment,
    HtmlAttribute, HtmlTag,
};
use crate::selection::Selections;
use crate::text::{
    boundary, byte_len, decimal, lemma_boundary_bounds, push_decimal, same_text, slice, sliceable,
    span, text_len,
};
use vstd::prelude::*;
use vstd::string::*;
use vstd::utf8::*;

verus! {

/// A cell of an HTML table: its content between its own tags.
#[derive(Debug)]
pub struct HtmlCell {
    pub content: SourceSpan,
    pub alignment: Option<HtmlAlignment>,
    pub opening: HtmlTag,
    pub closing: Option<SourceSpan>,
}

/// The start of the white space that ends at `at` and does not reach before `base`.
pub open spec fn blank_start(bytes: Seq<u8>, base: int, at: int) -> int
    decreases at - base,
{
    if at > base && ascii_blank(bytes[at - 1]) {
        blank_start(bytes, base, at - 1)
    } else {
        at
    }
}

impl HtmlCell {
    /// Whether the cell addresses `text`.
    pub open spec fn wf(self, text: Seq<char>) -> bool {
        &&& span_wf(text, self.content)
        &&& tag_wf(text, self.opening)
        &&& self.closing matches Some(closing) ==> span_wf(text, closing)
    }

    /// Whether the cell addresses `text`.
    pub fn is_valid(&self, text: &str) -> (r: bool)
        ensures
            r == self.wf(text@),
    {
        if !span_is_valid(text, self.content) || !tag_is_valid(text, &self.opening) {
            return false;
        }
        match self.closing {
            Some(closing) => span_is_valid(text, closing),
            None => true,
        }
    }
}

/// Whether an attribute says how many slots a cell covers.
pub open spec fn spans_slots(attribute: HtmlAttribute) -> bool {
    attribute.name@ == "rowspan"@ || attribute.name@ == "colspan"@
}

/// The removal of each span attribute together with the white space before it.
pub open spec fn span_removals(text: Seq<char>, tag: HtmlTag, count: int) -> Seq<EditView>
    decreases count,
{
    if count <= 0 {
        Seq::empty()
    } else {
        let before = span_removals(text, tag, count - 1);
        let attribute = tag.attributes@[count - 1];
        if spans_slots(attribute) {
            before.push(
                EditView {
                    start: blank_start(
                        encode_utf8(text),
                        tag.source.start as int,
                        attribute.source.start as int,
                    ),
                    end: attribute.source.end as int,
                    text: Seq::empty(),
                },
            )
        } else {
            before
        }
    }
}

/// The word for an alignment.
pub open spec fn alignment_word(alignment: HtmlAlignment) -> Seq<char> {
    match alignment {
        HtmlAlignment::Left => "left"@,
        HtmlAlignment::Center => "center"@,
        HtmlAlignment::Right => "right"@,
        HtmlAlignment::Justify => "justify"@,
    }
}

/// Whether the tag says itself how its content is aligned.
pub open spec fn aligns_itself(tag: HtmlTag) -> bool {
    exists|i: int|
        0 <= i < tag.attributes@.len() && ((#[trigger] tag.attributes@[i]).name@ == "align"@
            || tag.attributes@[i].name@ == "style"@)
}

/// The attributes that a copied cell gets: an alignment that it has from
/// elsewhere, and the slots that it covers in the copy.
pub open spec fn added_attributes(cell: HtmlCell, width: int, height: int) -> Seq<char> {
    (match cell.alignment {
        Some(alignment) if !aligns_itself(cell.opening) => " align=\""@ + alignment_word(alignment)
            + "\""@,
        _ => Seq::empty(),
    }) + (if width > 1 {
        " colspan=\""@ + decimal(width as nat) + "\""@
    } else {
        Seq::empty()
    }) + (if height > 1 {
        " rowspan=\""@ + decimal(height as nat) + "\""@
    } else {
        Seq::empty()
    })
}

/// The opening tag of a copied cell.
pub open spec fn copied_opening(text: Seq<char>, cell: HtmlCell, width: int, height: int) -> Seq<
    char,
> {
    let tag = cell.opening;
    rewritten(
        text,
        tag.source.start as int,
        tag.source.end - 1,
        span_removals(text, tag, tag.attributes@.len() as int),
    ) + added_attributes(cell, width, height) + ">"@
}

/// How many slots from `at` on, `step` apart and below `limit`, `owner` covers
/// without a gap.
pub open spec fn run_length(
    slots: Seq<Option<usize>>,
    owner: usize,
    at: int,
    step: int,
    limit: int,
) -> int
    decreases
            if at < limit {
                limit - at
            } else {
                0
            },
{
    if step > 0 && at < limit && slots[at] == Some(owner) {
        1 + run_length(slots, owner, at + step, step, limit)
    } else {
        0
    }
}

/// The cell whose content is `content`, the last one of several.
pub open spec fn cell_with(cells: Seq<HtmlCell>, content: SourceSpan) -> Option<HtmlCell>
    decreases cells.len(),
{
    if cells.len() == 0 {
        None
    } else if cells.last().content == content {
        Some(cells.last())
    } else {
        cell_with(cells.drop_last(), content)
    }
}

/// The source of selection `owner`.
pub open spec fn owner_span(selections: Selections, owner: int) -> SourceSpan {
    let range = selections.ranges@[owner].ordered();
    SourceSpan { start: range.start.value as usize, end: range.end.value as usize }
}

/// The markup of slot `k` of row `row` in a copy.
pub open spec fn slot_markup(
    text: Seq<char>,
    cells: Seq<HtmlCell>,
    selections: Selections,
    columns: int,
    slots: Seq<Option<usize>>,
    row: int,
    k: int,
) -> Seq<char> {
    match slots[k] {
        None => "<td></td>"@,
        Some(owner) => if slots.take(k).contains(Some(owner)) {
            Seq::empty()
        } else {
            let content = owner_span(selections, owner as int);
            let cell = cell_with(cells, content)->0;
            let closing = cell.closing->0;
            let width = run_length(slots, owner, k, 1, (row + 1) * columns);
            let height = run_length(slots, owner, k, columns, slots.len() as int);
            copied_opening(text, cell, width, height) + span(
                text,
                content.start as int,
                content.end as int,
            ) + span(text, closing.start as int, closing.end as int)
        },
    }
}

/// The first `count` slots of row `row`.
pub open spec fn row_markup(
    text: Seq<char>,
    cells: Seq<HtmlCell>,
    selections: Selections,
    columns: int,
    slots: Seq<Option<usize>>,
    row: int,
    count: int,
) -> Seq<char>
    decreases count,
{
    if count <= 0 {
        Seq::empty()
    } else {
        row_markup(text, cells, selections, columns, slots, row, count - 1) + slot_markup(
            text,
            cells,
            selections,
            columns,
            slots,
            row,
            row * columns + count - 1,
        )
    }
}

/// The first `rows` rows of a copy.
pub open spec fn rows_markup(
    text: Seq<char>,
    cells: Seq<HtmlCell>,
    selections: Selections,
    columns: int,
    slots: Seq<Option<usize>>,
    rows: int,
) -> Seq<char>
    decreases rows,
{
    if rows <= 0 {
        Seq::empty()
    } else {
        rows_markup(text, cells, selections, columns, slots, rows - 1) + "<tr>"@ + row_markup(
            text,
            cells,
            selections,
            columns,
            slots,
            rows - 1,
            columns,
        ) + "</tr>"@
    }
}

/// Whether every selected range is the content of a closed cell.
pub open spec fn copyable(
    cells: Seq<HtmlCell>,
    selections: Selections,
    slots: Seq<Option<usize>>,
    count: int,
) -> bool {
    forall|k: int|
        0 <= k < count ==> ((#[trigger] slots[k]) matches Some(owner) ==> (cell_with(
            cells,
            owner_span(selections, owner as int),
        ) matches Some(cell) && cell.closing is Some))
}

proof fn lemma_blank_start(text: Seq<char>, base: int, at: int, floor: int)
    requires
        boundary(text, at),
        boundary(text, base),
        base <= floor <= at,
        floor > base ==> !ascii_blank(encode_utf8(text)[floor - 1]),
    ensures
        boundary(text, blank_start(encode_utf8(text), base, at)),
        floor <= blank_start(encode_utf8(text), base, at) <= at,
    decreases at - base,
{
    let bytes = encode_utf8(text);
    lemma_boundary_bounds(text, at);
    lemma_boundary_bounds(text, base);
    if at > base && ascii_blank(bytes[at - 1]) {
        encode_utf8_valid_utf8(text);
        is_char_boundary_iff_not_is_continuation_byte(bytes, at - 1);
        lemma_blank_start(text, base, at - 1, floor);
    }
}

proof fn lemma_span_removals(text: Seq<char>, tag: HtmlTag, count: int)
    requires
        tag_wf(text, tag),
        0 <= count <= tag.attributes@.len(),
    ensures
        ({
            let edits = span_removals(text, tag, count);
            let end = if count == 0 {
                tag.source.start
            } else {
                tag.attributes@[count - 1].source.end
            };
            &&& ordered_edits(text, edits)
            &&& edits_within(edits, tag.source.start as int, end as int)
        }),
    decreases count,
{
    if count > 0 {
        lemma_span_removals(text, tag, count - 1);
        let before = span_removals(text, tag, count - 1);
        let edits = span_removals(text, tag, count);
        let attribute = tag.attributes@[count - 1];
        assert(attribute_wf(text, tag.source, attribute));
        let floor = if count == 1 {
            tag.source.start as int
        } else {
            tag.attributes@[count - 2].source.end as int
        };
        if count > 1 {
            assert(attribute_wf(text, tag.source, tag.attributes@[count - 2]));
            assert(tag.attributes@[count - 2].source.end <= tag.attributes@[count
                - 1].source.start);
        }
        lemma_blank_start(
            text,
            tag.source.start as int,
            attribute.source.start as int,
            floor,
        );
        assert forall|i: int| 0 <= i < edits.len() implies sliceable(
            text,
            (#[trigger] edits[i]).start,
            edits[i].end,
        ) && tag.source.start <= edits[i].start && edits[i].end <= attribute.source.end by {
            if i < before.len() {
                assert(edits[i] == before[i]);
            }
        }
        assert forall|i: int, j: int|
            #![trigger edits[i], edits[j]]
            0 <= i < j < edits.len() implies edits[i].end <= edits[j].start by {
            assert(edits[i] == before[i]);
            if j < before.len() {
                assert(edits[j] == before[j]);
            }
        }
    }
}

fn is_span_attribute(attribute: &HtmlAttribute) -> (r: bool)
    ensures
        r == spans_slots(*attribute),
{
    same_text(attribute.name.as_str(), "rowspan") || same_text(attribute.name.as_str(), "colspan")
}

fn find_blank_start(source: &str, base: usize, at: usize) -> (r: usize)
    requires
        base <= at <= byte_len(source@),
    ensures
        r == blank_start(encode_utf8(source@), base as int, at as int),
        base <= r <= at,
{
    let bytes = source.as_bytes();
    let mut start: usize = at;
    while start > base && (bytes[start - 1] == 0x20 || bytes[start - 1] == 0x09 || bytes[start - 1]
        == 0x0a || bytes[start - 1] == 0x0c || bytes[start - 1] == 0x0d)
        invariant
            bytes@ == encode_utf8(source@),
            base <= start <= at <= bytes@.len(),
            blank_start(bytes@, base as int, start as int) == blank_start(
                bytes@,
                base as int,
                at as int,
            ),
        decreases start,
    {
        start -= 1;
    }
    start
}

fn copy_opening(source: &str, cell: &HtmlCell, width: usize, height: usize) -> (r: String)
    requires
        cell.wf(source@),
    ensures
        r@ == copied_opening(source@, *cell, width as int, height as int),
{
    let tag = &cell.opening;
    let ghost bytes = encode_utf8(source@);
    let mut edits: Vec<Edit> = Vec::new();
    let mut i: usize = 0;
    assert(edit_views(edits@) =~= Seq::empty());
    while i < tag.attributes.len()
        invariant
            tag_wf(source@, *tag),
            i <= tag.attributes@.len(),
            edit_views(edits@) == span_removals(source@, *tag, i as int),
        decreases tag.attributes@.len() - i,
    {
        let attribute = &tag.attributes[i];
        assert(attribute_wf(source@, tag.source, tag.attributes@[i as int]));
        if is_span_attribute(attribute) {
            proof {
                lemma_boundary_bounds(source@, attribute.source.start as int);
            }
            let start = find_blank_start(source, tag.source.start, attribute.source.start);
            let edit = Edit::replace(start, attribute.source.end, String::new());
            let ghost before = edits@;
            edits.push(edit);
            assert(edit@.text =~= Seq::empty());
            assert(edit_views(edits@) =~= edit_views(before).push(edit@));
        }
        i += 1;
    }
    proof {
        lemma_span_removals(source@, *tag, tag.attributes@.len() as int);
        lemma_boundary_bounds(source@, tag.source.end as int);
        encode_utf8_valid_utf8(source@);
        is_char_boundary_iff_not_is_continuation_byte(bytes, tag.source.end - 1);
        if tag.attributes@.len() > 0 {
            assert(attribute_wf(
                source@,
                tag.source,
                tag.attributes@[tag.attributes@.len() - 1],
            ));
        }
    }
    let mut made = rewrite(source, tag.source.start, tag.source.end - 1, &edits);
    let added = attribute_text(cell, width, height);
    made.push_str(added.as_str());
    made.push_str(">");
    made
}

fn attribute_text(cell: &HtmlCell, width: usize, height: usize) -> (r: String)
    ensures
        r@ == added_attributes(*cell, width as int, height as int),
{
    let mut made = String::new();
    if let Some(alignment) = cell.alignment {
        if !has_own_alignment(&cell.opening) {
            made.push_str(" align=\"");
            made.push_str(
                match alignment {
                    HtmlAlignment::Left => "left",
                    HtmlAlignment::Center => "center",
                    HtmlAlignment::Right => "right",
                    HtmlAlignment::Justify => "justify",
                },
            );
            made.push_str("\"");
        }
    }
    let ghost aligned = made@;
    if width > 1 {
        made.push_str(" colspan=\"");
        push_decimal(&mut made, width as u64);
        made.push_str("\"");
    }
    let ghost wide = made@;
    if height > 1 {
        made.push_str(" rowspan=\"");
        push_decimal(&mut made, height as u64);
        made.push_str("\"");
    }
    assert(aligned =~= (match cell.alignment {
        Some(alignment) if !aligns_itself(cell.opening) => " align=\""@ + alignment_word(alignment)
            + "\""@,
        _ => Seq::empty(),
    }));
    assert(wide =~= aligned + (if width > 1 {
        " colspan=\""@ + decimal(width as nat) + "\""@
    } else {
        Seq::empty()
    }));
    assert(made@ =~= wide + (if height > 1 {
        " rowspan=\""@ + decimal(height as nat) + "\""@
    } else {
        Seq::empty()
    }));
    made
}

fn has_own_alignment(tag: &HtmlTag) -> (r: bool)
    ensures
        r == aligns_itself(*tag),
{
    let mut i: usize = 0;
    while i < tag.attributes.len()
        invariant
            i <= tag.attributes@.len(),
            forall|k: int|
                0 <= k < i ==> !((#[trigger] tag.attributes@[k]).name@ == "align"@
                    || tag.attributes@[k].name@ == "style"@),
        decreases tag.attributes@.len() - i,
    {
        let name = tag.attributes[i].name.as_str();
        if same_text(name, "align") || same_text(name, "style") {
            assert(tag.attributes@[i as int].name@ == "align"@ || tag.attributes@[i as int].name@
                == "style"@);
            return true;
        }
        i += 1;
    }
    false
}

fn count_run(
    slots: &Vec<Option<usize>>,
    owner: usize,
    at: usize,
    step: usize,
    limit: usize,
) -> (r: usize)
    requires
        limit <= slots@.len(),
        step > 0,
    ensures
        r == run_length(slots@, owner, at as int, step as int, limit as int),
        r <= limit,
{
    let mut count: usize = 0;
    let mut k: usize = at;
    while k < limit && slots[k] == Some(owner)
        invariant
            limit <= slots@.len(),
            step > 0,
            count + run_length(slots@, owner, k as int, step as int, limit as int) == run_length(
                slots@,
                owner,
                at as int,
                step as int,
                limit as int,
            ),
            count <= k,
            count <= limit,
        decreases limit - k,
    {
        count += 1;
        if limit - k <= step {
            assert(run_length(slots@, owner, k + step, step as int, limit as int) == 0);
            return count;
        }
        k += step;
    }
    count
}

fn find_cell(cells: &Vec<HtmlCell>, content: SourceSpan) -> (r: Option<usize>)
    ensures
        match r {
            Some(i) => i < cells@.len() && cell_with(cells@, content) == Some(cells@[i as int])
                && cells@[i as int].content == content,
            None => cell_with(cells@, content) is None,
        },
{
    let mut i: usize = cells.len();
    assert(cells@.take(i as int) =~= cells@);
    while i > 0
        invariant
            i <= cells@.len(),
            cell_with(cells@.take(i as int), content) == cell_with(cells@, content),
        decreases i,
    {
        assert(cells@.take(i as int).last() == cells@[i - 1]);
        assert(cells@.take(i as int).drop_last() =~= cells@.take(i - 1));
        if cells[i - 1].content == content {
            return Some(i - 1);
        }
        i -= 1;
    }
    None
}

/// The markup of the first slot that selection `owner` covers. `None` where the
/// selection is not the content of a closed cell.
fn copy_cell(
    source: &str,
    cells: &Vec<HtmlCell>,
    selections: &Selections,
    columns: usize,
    slots: &Vec<Option<usize>>,
    row_end: usize,
    k: usize,
    owner: usize,
) -> (r: Option<String>)
    requires
        forall|i: int| 0 <= i < cells@.len() ==> (#[trigger] cells@[i]).wf(source@),
        selections.wf(source@),
        owner < selections.ranges@.len(),
        columns > 0,
        row_end <= slots@.len(),
    ensures
        ({
            let content = owner_span(*selections, owner as int);
            let found = cell_with(cells@, content);
            let cell = found->0;
            let closing = cell.closing->0;
            let width = run_length(slots@, owner, k as int, 1, row_end as int);
            let height = run_length(slots@, owner, k as int, columns as int, slots@.len() as int);
            match r {
                Some(made) => found is Some && cell.closing is Some && made@ == copied_opening(
                    source@,
                    cell,
                    width,
                    height,
                ) + span(source@, content.start as int, content.end as int) + span(
                    source@,
                    closing.start as int,
                    closing.end as int,
                ),
                None => found is None || cell.closing is None,
            }
        }),
{
    let length = text_len(source);
    assert(selections.ranges@[owner as int].wf(source@));
    let range = selections.ranges[owner].ordered_range();
    proof {
        lemma_boundary_bounds(source@, range.start.value as int);
        lemma_boundary_bounds(source@, range.end.value as int);
    }
    let content = SourceSpan::new(range.start.value as usize, range.end.value as usize);
    let index = match find_cell(cells, content) {
        Some(index) => index,
        None => {
            return None;
        },
    };
    let cell = &cells[index];
    assert(cells@[index as int].wf(source@));
    let closing = match cell.closing {
        Some(closing) => closing,
        None => {
            return None;
        },
    };
    let width = count_run(slots, owner, k, 1, row_end);
    let height = count_run(slots, owner, k, columns, slots.len());
    let mut made = copy_opening(source, cell, width, height);
    made.push_str(slice(source, content.start, content.end));
    made.push_str(slice(source, closing.start, closing.end));
    Some(made)
}

/// Copies the selected cells with their own tags. A cell that the rectangle cuts
/// gets the spans that it has inside the rectangle. `cells` are the cells of the
/// table around the selection where that is an HTML table. `Ok(None)` where it
/// is not, or no cells are selected, and in source mode.
pub fn copy_html_table_source(
    source_mode: bool,
    source: &str,
    selections: &Selections,
    cells: Option<&Vec<HtmlCell>>,
) -> (r: Result<Option<String>, EditorDocumentError>)
    requires
        selections.wf(source@),
        cells matches Some(cells) ==> forall|i: int|
            0 <= i < cells@.len() ==> (#[trigger] cells@[i]).wf(source@),
    ensures
        match (selections.table, cells) {
            (Some(table), Some(cells)) if !source_mode => {
                let slots = table.slots@;
                let columns = table.columns as int;
                match r {
                    Ok(Some(made)) => {
                        &&& copyable(cells@, *selections, slots, slots.len() as int)
                        &&& made@ == "<table>"@ + rows_markup(
                            source@,
                            cells@,
                            *selections,
                            columns,
                            slots,
                            slots.len() as int / columns,
                        ) + "</table>"@
                    },
                    Ok(None) => false,
                    Err(e) => e == EditorDocumentError::InvalidTablePaste && !copyable(
                        cells@,
                        *selections,
                        slots,
                        slots.len() as int,
                    ),
                }
            },
            _ => r == Ok::<Option<String>, EditorDocumentError>(None),
        },
{
    if source_mode {
        return Ok(None);
    }
    let table = match &selections.table {
        Some(table) => table,
        None => {
            return Ok(None);
        },
    };
    let own = match cells {
        Some(own) => own,
        None => {
            return Ok(None);
        },
    };
    let columns: usize = table.columns;
    let slots = &table.slots;
    let rows: usize = slots.len() / columns;
    proof {
        vstd::arithmetic::div_mod::lemma_fundamental_div_mod(slots@.len() as int, columns as int);
        assert(columns * rows == rows * columns) by (nonlinear_arith);
        assert(0 * columns == 0) by (nonlinear_arith);
    }
    let mut seen: Vec<bool> = Vec::new();
    let mut n: usize = 0;
    while n < selections.ranges.len()
        invariant
            n <= selections.ranges@.len(),
            seen@.len() == n,
            forall|o: int| 0 <= o < n ==> !(#[trigger] seen@[o]),
        decreases selections.ranges@.len() - n,
    {
        seen.push(false);
        n += 1;
    }
    let mut output = String::new();
    output.push_str("<table>");
    let ghost opened = output@;
    let mut row: usize = 0;
    let mut k: usize = 0;
    proof {
        assert(opened =~= "<table>"@);
        assert(output@ =~= opened + rows_markup(
            source@,
            own@,
            *selections,
            columns as int,
            slots@,
            0,
        ));
        assert forall|o: usize| o < seen@.len() implies (#[trigger] seen@[o as int])
            == slots@.take(0).contains(Some(o)) by {}
    }
    while row < rows
        invariant
            !source_mode,
            selections.wf(source@),
            forall|i: int| 0 <= i < own@.len() ==> (#[trigger] own@[i]).wf(source@),
            cells == Some(own),
                selections.table matches Some(t) && t.slots == *slots && t.columns == columns,
            columns > 0,
            rows * columns == slots@.len(),
            row <= rows,
            k == row * columns,
            seen@.len() == selections.ranges@.len(),
            forall|o: usize|
                o < seen@.len() ==> (#[trigger] seen@[o as int]) == slots@.take(k as int).contains(
                    Some(o),
                ),
            copyable(own@, *selections, slots@, k as int),
            output@ == opened + rows_markup(
                source@,
                own@,
                *selections,
                columns as int,
                slots@,
                row as int,
            ),
        decreases rows - row,
    {
        output.push_str("<tr>");
        let ghost head = output@;
        proof {
            assert(row * columns + columns == (row + 1) * columns) by (nonlinear_arith);
            assert((row + 1) * columns <= rows * columns) by (nonlinear_arith)
                requires
                    row < rows,
                    0 <= columns,
            ;
            assert(slots@.len() == slots.len());
            assert(head + Seq::<char>::empty() =~= head);
        }
        let row_end: usize = k + columns;
        let row_start = k;
        while k < row_end
            invariant
                !source_mode,
                selections.wf(source@),
                forall|i: int| 0 <= i < own@.len() ==> (#[trigger] own@[i]).wf(source@),
                cells == Some(own),
                selections.table matches Some(t) && t.slots == *slots && t.columns == columns,
                columns > 0,
                row_start <= k <= row_end <= slots@.len(),
                row_start == row * columns,
                row_end == (row + 1) * columns,
                seen@.len() == selections.ranges@.len(),
                forall|o: usize|
                    o < seen@.len() ==> (#[trigger] seen@[o as int]) == slots@.take(
                        k as int,
                    ).contains(Some(o)),
                copyable(own@, *selections, slots@, k as int),
                output@ == head + row_markup(
                    source@,
                    own@,
                    *selections,
                    columns as int,
                    slots@,
                    row as int,
                    k - row_start,
                ),
            decreases row_end - k,
        {
            let ghost before = output@;
            let ghost seen_before = seen@;
            match slots[k] {
                None => {
                    output.push_str("<td></td>");
                },
                Some(owner) => {
                    assert(slots@[k as int] == Some(owner));
                    if !seen[owner] {
                        seen.set(owner, true);
                        match copy_cell(
                            source,
                            own,
                            selections,
                            columns,
                            slots,
                            row_end,
                            k,
                            owner,
                        ) {
                            Some(made) => {
                                output.push_str(made.as_str());
                            },
                            None => {
                                assert(!copyable(
                                    own@,
                                    *selections,
                                    slots@,
                                    slots@.len() as int,
                                )) by {
                                    assert(slots@[k as int] == Some(owner));
                                }
                                return Err(EditorDocumentError::InvalidTablePaste);
                            },
                        }
                    }
                },
            }
            proof {
                let made = slot_markup(
                    source@,
                    own@,
                    *selections,
                    columns as int,
                    slots@,
                    row as int,
                    k as int,
                );
                assert(output@ =~= before + made);
                assert(before + made =~= head + row_markup(
                    source@,
                    own@,
                    *selections,
                    columns as int,
                    slots@,
                    row as int,
                    k + 1 - row_start,
                ));
                let now = slots@.take(k + 1);
                let earlier = slots@.take(k as int);
                assert(now =~= earlier.push(slots@[k as int]));
                assert forall|o: usize| o < seen@.len() implies (#[trigger] seen@[o as int])
                    == now.contains(Some(o)) by {
                    assert(seen_before[o as int] == earlier.contains(Some(o)));
                    if earlier.contains(Some(o)) {
                        let i = choose|i: int|
                            0 <= i < earlier.len() && earlier[i] == Some(o);
                        assert(now[i] == Some(o));
                    }
                    assert(now[k as int] == slots@[k as int]);
                    if now.contains(Some(o)) && slots@[k as int] != Some(o) {
                        let i = choose|i: int| 0 <= i < now.len() && now[i] == Some(o);
                        assert(earlier[i] == Some(o));
                    }
                }
                if earlier.contains(slots@[k as int]) {
                    let i = choose|i: int|
                        0 <= i < earlier.len() && earlier[i] == slots@[k as int];
                    assert(slots@[i] == slots@[k as int]);
                }
            }
            k += 1;
        }
        output.push_str("</tr>");
        assert(output@ =~= opened + rows_markup(
            source@,
            own@,
            *selections,
            columns as int,
            slots@,
            row + 1,
        ));
        row += 1;
    }
    output.push_str("</table>");
    Ok(Some(output))
}

/// Whether `owner` covers `count` slots from `at` on, `step` apart and below `limit`, and no
/// more in a row.
pub open spec fn covers_run(
    slots: Seq<Option<usize>>,
    owner: usize,
    at: int,
    step: int,
    limit: int,
    count: int,
) -> bool {
    &&& 0 <= count
    &&& forall|j: int|
        0 <= j < count ==> at + j * step < limit && #[trigger] slots[at + j * step] == Some(owner)
    &&& at + count * step >= limit || slots[at + count * step] != Some(owner)
}

proof fn lemma_run_length(
    slots: Seq<Option<usize>>,
    owner: usize,
    at: int,
    step: int,
    limit: int,
)
    requires
        step > 0,
    ensures
        covers_run(slots, owner, at, step, limit, run_length(slots, owner, at, step, limit)),
    decreases
            if at < limit {
                limit - at
            } else {
                0
            },
{
    let count = run_length(slots, owner, at, step, limit);
    assert(0 * step == 0) by (nonlinear_arith);
    if at < limit && slots[at] == Some(owner) {
        lemma_run_length(slots, owner, at + step, step, limit);
        let fewer = run_length(slots, owner, at + step, step, limit);
        assert(count == fewer + 1);
        assert forall|j: int| 0 <= j < count implies at + j * step < limit
            && #[trigger] slots[at + j * step] == Some(owner) by {
            if j > 0 {
                assert(at + step + (j - 1) * step == at + j * step) by (nonlinear_arith);
                assert(slots[at + step + (j - 1) * step] == Some(owner));
            }
        }
        assert(at + step + fewer * step == at + count * step) by (nonlinear_arith)
            requires
                count == fewer + 1,
        ;
    }
}

/// Whether `made` is what slot `k` of a copy is written as. An empty slot is an empty cell; a
/// cell is written at the first slot that it covers, with its own tags and content, and as
/// wide and as high as it is in the copy; its other slots are not written.
pub open spec fn slot_is_copied(
    text: Seq<char>,
    cells: Seq<HtmlCell>,
    selections: Selections,
    columns: int,
    slots: Seq<Option<usize>>,
    row: int,
    k: int,
    made: Seq<char>,
) -> bool {
    match slots[k] {
        None => made == "<td></td>"@,
        Some(owner) => if exists|j: int| 0 <= j < k && #[trigger] slots[j] == Some(owner) {
            made.len() == 0
        } else {
            exists|n: int, width: int, height: int|
                #![trigger cells[n], covers_run(slots, owner, k, 1, (row + 1) * columns, width), covers_run(slots, owner, k, columns, slots.len() as int, height)]
                {
                    let range = selections.ranges@[owner as int].ordered();
                    &&& 0 <= n < cells.len()
                    &&& cells[n].content.start == range.start.value && cells[n].content.end
                        == range.end.value
                    &&& covers_run(slots, owner, k, 1, (row + 1) * columns, width)
                    &&& covers_run(slots, owner, k, columns, slots.len() as int, height)
                    &&& cells[n].closing matches Some(closing) && made == copied_opening(
                        text,
                        cells[n],
                        width,
                        height,
                    ) + span(
                        text,
                        cells[n].content.start as int,
                        cells[n].content.end as int,
                    ) + span(text, closing.start as int, closing.end as int)
                }
        },
    }
}

proof fn lemma_cell_with(cells: Seq<HtmlCell>, content: SourceSpan)
    ensures
        cell_with(cells, content) matches Some(cell) ==> exists|n: int|
            0 <= n < cells.len() && #[trigger] cells[n] == cell && cell.content == content,
    decreases cells.len(),
{
    if cells.len() > 0 {
        if cells.last().content == content {
            assert(cells[cells.len() - 1] == cells.last());
        } else {
            lemma_cell_with(cells.drop_last(), content);
            if let Some(cell) = cell_with(cells, content) {
                let n = choose|n: int|
                    0 <= n < cells.drop_last().len() && #[trigger] cells.drop_last()[n] == cell
                        && cell.content == content;
                assert(cells[n] == cell);
            }
        }
    }
}

/// What every slot of a copy is written as.
pub proof fn law_copied_slot_holds_its_cell(
    text: Seq<char>,
    cells: Seq<HtmlCell>,
    selections: Selections,
    columns: int,
    slots: Seq<Option<usize>>,
    row: int,
    k: int,
)
    requires
        columns > 0,
        0 <= k < slots.len(),
        copyable(cells, selections, slots, slots.len() as int),
        slots[k] matches Some(owner) ==> selections.ranges@[owner as int].ordered().end.value
            <= usize::MAX && selections.ranges@[owner as int].ordered().start.value <= usize::MAX,
    ensures
        slot_is_copied(
            text,
            cells,
            selections,
            columns,
            slots,
            row,
            k,
            slot_markup(text, cells, selections, columns, slots, row, k),
        ),
{
    if let Some(owner) = slots[k] {
        let earlier = slots.take(k);
        if earlier.contains(Some(owner)) {
            let j = choose|j: int| 0 <= j < earlier.len() && earlier[j] == Some(owner);
            assert(slots[j] == Some(owner));
        } else {
            if exists|j: int| 0 <= j < k && #[trigger] slots[j] == Some(owner) {
                let j = choose|j: int| 0 <= j < k && #[trigger] slots[j] == Some(owner);
                assert(earlier[j] == Some(owner));
            }
            let content = owner_span(selections, owner as int);
            lemma_cell_with(cells, content);
            let cell = cell_with(cells, content)->0;
            let n = choose|n: int|
                0 <= n < cells.len() && #[trigger] cells[n] == cell && cell.content == content;
            let width = run_length(slots, owner, k, 1, (row + 1) * columns);
            let height = run_length(slots, owner, k, columns, slots.len() as int);
            lemma_run_length(slots, owner, k, 1, (row + 1) * columns);
            lemma_run_length(slots, owner, k, columns, slots.len() as int);
            assert(covers_run(slots, owner, k, 1, (row + 1) * columns, width));
            assert(covers_run(slots, owner, k, columns, slots.len() as int, height));
            assert(cells[n] == cell);
        }
    }
}

proof fn lemma_copied_row(
    text: Seq<char>,
    cells: Seq<HtmlCell>,
    selections: Selections,
    columns: int,
    slots: Seq<Option<usize>>,
    row: int,
    count: int,
)
    requires
        0 < count <= columns,
    ensures
        row_markup(text, cells, selections, columns, slots, row, count) == woven(
            Seq::new(
                columns as nat,
                |c: int|
                    slot_markup(text, cells, selections, columns, slots, row, row * columns + c),
            ).take(count),
            Seq::new((columns - 1) as nat, |c: int| Seq::empty()),
        ),
    decreases count,
{
    let pieces = Seq::new(
        columns as nat,
        |c: int| slot_markup(text, cells, selections, columns, slots, row, row * columns + c),
    );
    let gaps = Seq::new((columns - 1) as nat, |c: int| Seq::<char>::empty());
    let made = row_markup(text, cells, selections, columns, slots, row, count);
    if count == 1 {
        assert(row_markup(text, cells, selections, columns, slots, row, 0) =~= Seq::empty());
        assert(pieces.take(1)[0] == pieces[0]);
        assert(made =~= pieces[0]);
    } else {
        lemma_copied_row(text, cells, selections, columns, slots, row, count - 1);
        lemma_woven_push(pieces, gaps, count);
        assert(gaps[count - 2] =~= Seq::<char>::empty());
        assert(row * columns + count - 1 == row * columns + (count - 1));
        assert(made =~= woven(pieces.take(count - 1), gaps) + gaps[count - 2] + pieces[count - 1]);
    }
}

/// A copy has its slots row by row, each row between the tags of one.
pub proof fn law_copied_table_has_its_slots_in_order(
    text: Seq<char>,
    cells: Seq<HtmlCell>,
    selections: Selections,
    columns: int,
    slots: Seq<Option<usize>>,
    rows: int,
)
    requires
        columns > 0,
        rows > 0,
    ensures
        rows_markup(text, cells, selections, columns, slots, rows) == woven(
            Seq::new(
                rows as nat,
                |r: int|
                    "<tr>"@ + woven(
                        Seq::new(
                            columns as nat,
                            |c: int|
                                slot_markup(
                                    text,
                                    cells,
                                    selections,
                                    columns,
                                    slots,
                                    r,
                                    r * columns + c,
                                ),
                        ),
                        Seq::new((columns - 1) as nat, |c: int| Seq::empty()),
                    ) + "</tr>"@,
            ),
            Seq::new((rows - 1) as nat, |r: int| Seq::empty()),
        ),
    decreases rows,
{
    let line = |r: int|
        "<tr>"@ + woven(
            Seq::new(
                columns as nat,
                |c: int|
                    slot_markup(text, cells, selections, columns, slots, r, r * columns + c),
            ),
            Seq::new((columns - 1) as nat, |c: int| Seq::<char>::empty()),
        ) + "</tr>"@;
    let lines = Seq::new(rows as nat, line);
    let gaps = Seq::new((rows - 1) as nat, |r: int| Seq::<char>::empty());
    let made = rows_markup(text, cells, selections, columns, slots, rows);
    lemma_copied_row(text, cells, selections, columns, slots, rows - 1, columns);
    let pieces = Seq::new(
        columns as nat,
        |c: int|
            slot_markup(
                text,
                cells,
                selections,
                columns,
                slots,
                rows - 1,
                (rows - 1) * columns + c,
            ),
    );
    assert(pieces.take(columns) =~= pieces);
    let row = "<tr>"@ + row_markup(
        text,
        cells,
        selections,
        columns,
        slots,
        rows - 1,
        columns,
    ) + "</tr>"@;
    assert(lines[rows - 1] == row);
    if rows == 1 {
        assert(rows_markup(text, cells, selections, columns, slots, 0) =~= Seq::empty());
        assert(made =~= row);
    } else {
        law_copied_table_has_its_slots_in_order(
            text,
            cells,
            selections,
            columns,
            slots,
            rows - 1,
        );
        let fewer = Seq::new((rows - 1) as nat, line);
        let short = Seq::new((rows - 2) as nat, |r: int| Seq::<char>::empty());
        assert(lines.drop_last() =~= fewer);
        lemma_woven_gaps(fewer, gaps, short);
        assert(gaps[rows - 2] =~= Seq::<char>::empty());
        assert(made =~= rows_markup(text, cells, selections, columns, slots, rows - 1)
            + gaps[rows - 2] + row);
    }
    assert(Seq::new(
        rows as nat,
        |r: int|
            "<tr>"@ + woven(
                Seq::new(
                    columns as nat,
                    |c: int|
                        slot_markup(
                            text,
                            cells,
                            selections,
                            columns,
                            slots,
                            r,
                            r * columns + c,
                        ),
                ),
                Seq::new((columns - 1) as nat, |c: int| Seq::empty()),
            ) + "</tr>"@,
    ) =~= lines);
}

/// The opening tag of a copied cell is its own tag up to the closing bracket, as long as it
/// covers one slot by itself, with an alignment that it has from elsewhere and does not say,
/// and with the slots that it covers in the copy where these are several.
pub proof fn law_copied_tag_keeps_its_attributes(
    text: Seq<char>,
    cell: HtmlCell,
    width: int,
    height: int,
)
    requires
        forall|k: int|
            0 <= k < cell.opening.attributes@.len() ==> (
            #[trigger] cell.opening.attributes@[k]).name@ != "rowspan"@
                && cell.opening.attributes@[k].name@ != "colspan"@,
    ensures
        ({
            let tag = cell.opening;
            let says = exists|k: int|
                0 <= k < tag.attributes@.len() && ((#[trigger] tag.attributes@[k]).name@
                    == "align"@ || tag.attributes@[k].name@ == "style"@);
            let word = match cell.alignment {
                Some(HtmlAlignment::Left) => " align=\"left\""@,
                Some(HtmlAlignment::Center) => " align=\"center\""@,
                Some(HtmlAlignment::Right) => " align=\"right\""@,
                Some(HtmlAlignment::Justify) => " align=\"justify\""@,
                None => ""@,
            };
            copied_opening(text, cell, width, height) == span(
                text,
                tag.source.start as int,
                tag.source.end - 1,
            ) + (if says {
                ""@
            } else {
                word
            }) + (if width > 1 {
                " colspan=\""@ + decimal(width as nat) + "\""@
            } else {
                ""@
            }) + (if height > 1 {
                " rowspan=\""@ + decimal(height as nat) + "\""@
            } else {
                ""@
            }) + ">"@
        }),
{
    let tag = cell.opening;
    lemma_no_spans(text, tag, tag.attributes@.len() as int);
    let says = exists|k: int|
        0 <= k < tag.attributes@.len() && ((#[trigger] tag.attributes@[k]).name@ == "align"@
            || tag.attributes@[k].name@ == "style"@);
    assert(aligns_itself(tag) == says);
    reveal_strlit("");
    reveal_strlit(" align=\"");
    reveal_strlit("\"");
    reveal_strlit("left");
    reveal_strlit("center");
    reveal_strlit("right");
    reveal_strlit("justify");
    reveal_strlit(" align=\"left\"");
    reveal_strlit(" align=\"center\"");
    reveal_strlit(" align=\"right\"");
    reveal_strlit(" align=\"justify\"");
    assert(""@ =~= Seq::<char>::empty());
    assert(" align=\""@ + "left"@ + "\""@ =~= " align=\"left\""@);
    assert(" align=\""@ + "center"@ + "\""@ =~= " align=\"center\""@);
    assert(" align=\""@ + "right"@ + "\""@ =~= " align=\"right\""@);
    assert(" align=\""@ + "justify"@ + "\""@ =~= " align=\"justify\""@);
    let own = span(text, tag.source.start as int, tag.source.end - 1);
    assert(rewritten(text, tag.source.start as int, tag.source.end - 1, Seq::empty()) == own);
    let word = match cell.alignment {
        Some(alignment) if !aligns_itself(tag) => " align=\""@ + alignment_word(alignment)
            + "\""@,
        _ => Seq::empty(),
    };
    let wide = if width > 1 {
        " colspan=\""@ + decimal(width as nat) + "\""@
    } else {
        Seq::empty()
    };
    let high = if height > 1 {
        " rowspan=\""@ + decimal(height as nat) + "\""@
    } else {
        Seq::empty()
    };
    assert(added_attributes(cell, width, height) == word + wide + high);
    assert(own + (word + wide + high) + ">"@ =~= own + word + wide + high + ">"@);
}

proof fn lemma_no_spans(text: Seq<char>, tag: HtmlTag, count: int)
    requires
        0 <= count <= tag.attributes@.len(),
        forall|k: int|
            0 <= k < tag.attributes@.len() ==> (#[trigger] tag.attributes@[k]).name@
                != "rowspan"@ && tag.attributes@[k].name@ != "colspan"@,
    ensures
        span_removals(text, tag, count) == Seq::<EditView>::empty(),
    decreases count,
{
    if count > 0 {
        lemma_no_spans(text, tag, count - 1);
        assert(tag.attributes@[count - 1].name@ != "rowspan"@);
    }
}

} // verus!
