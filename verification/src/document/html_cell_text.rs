//! Text edits inside the cells of HTML tables. They keep the tags around the text.
use crate::document::error::EditorDocumentError;
use crate::edit::{
    edit_precedes, edit_views, insert_sorted, law_sorted_edits, sorted_edits, sorted_insert, Edit,
    EditView,
};
use crate::grid::SourceSpan;
use crate::html::{
    is_paragraph_name, paragraph_name, span_contains, span_in, span_wf, HtmlModel, HtmlNode,
    HtmlNodeKind,
};
use crate::selection::SelectionError;
use crate::text::{
    byte_len, chars_of, lemma_boundary_bounds, same_text, slice, sliceable, span, text_len,
};
use vstd::prelude::*;

verus! {

/// `text` as the content of an HTML cell: markup characters are escaped, and
/// each line ending becomes a break tag.
pub open spec fn encoded_cell_text(text: Seq<char>) -> Seq<char>
    decreases text.len(),
{
    if text.len() == 0 {
        Seq::empty()
    } else if text[0] == '\r' && text.len() > 1 && text[1] == '\n' {
        "<br>"@ + encoded_cell_text(text.skip(2))
    } else {
        encoded_char(text[0]) + encoded_cell_text(text.drop_first())
    }
}

/// One character of a cell's text.
pub open spec fn encoded_char(c: char) -> Seq<char> {
    if c == '&' {
        "&amp;"@
    } else if c == '<' {
        "&lt;"@
    } else if c == '>' {
        "&gt;"@
    } else if c == '\r' || c == '\n' {
        "<br>"@
    } else {
        seq![c]
    }
}

/// Encodes `text` as the content of an HTML cell.
pub fn encode_html_cell_text(text: &str) -> (r: String)
    ensures
        r@ == encoded_cell_text(text@),
{
    let chars = chars_of(text);
    let ghost all = text@;
    let mut out = String::new();
    let mut i: usize = 0;
    assert(all.skip(0) =~= all);
    assert(out@ + encoded_cell_text(all) =~= encoded_cell_text(all));
    while i < chars.len()
        invariant
            chars@ == all,
            i <= all.len(),
            out@ + encoded_cell_text(all.skip(i as int)) == encoded_cell_text(all),
        decreases all.len() - i,
    {
        let ghost before = out@;
        let ghost rest = all.skip(i as int);
        let c = chars[i];
        assert(rest[0] == c);
        if c == '\r' && i + 1 < chars.len() && chars[i + 1] == '\n' {
            assert(rest[1] == '\n');
            assert(rest.skip(2) =~= all.skip(i + 2));
            out.push_str("<br>");
            assert(out@ + encoded_cell_text(all.skip(i + 2)) =~= before + encoded_cell_text(rest));
            i += 2;
            continue;
        }
        assert(rest.len() > 1 ==> rest[1] == all[i + 1]);
        assert(rest.drop_first() =~= all.skip(i + 1));
        if c == '&' {
            out.push_str("&amp;");
        } else if c == '<' {
            out.push_str("&lt;");
        } else if c == '>' {
            out.push_str("&gt;");
        } else if c == '\r' || c == '\n' {
            out.push_str("<br>");
        } else {
            out.push(c);
        }
        assert(out@ =~= before + encoded_char(c));
        assert(out@ + encoded_cell_text(all.skip(i + 1)) =~= before + encoded_cell_text(rest));
        i += 1;
    }
    assert(all.skip(i as int) =~= Seq::empty());
    assert(out@ + Seq::<char>::empty() =~= out@);
    out
}

/// Two neighbouring paragraphs of a cell: the tags at their seam, and the tag
/// that closes the right one.
#[derive(Clone, Copy, Debug, PartialEq, Eq, Structural)]
pub struct HtmlParagraphJoin {
    pub closing: SourceSpan,
    pub opening: SourceSpan,
    pub right_closing: SourceSpan,
    pub same_tag: bool,
}

/// The join of parts `j` and `j + 1` of cell `i`, if both are sibling
/// paragraphs that fill their parts.
pub open spec fn join_at(model: HtmlModel, i: int, j: int) -> Option<HtmlParagraphJoin> {
    let left = model.cell_parts@[i]@[j];
    let right = model.cell_parts@[i]@[j + 1];
    match (left.owner, right.owner) {
        (Some(a), Some(b)) => join_nodes(
            model.nodes@[a as int],
            model.nodes@[b as int],
            left.source,
            right.source,
        ),
        _ => None,
    }
}

/// The join of two nodes that stand for the given parts.
pub open spec fn join_nodes(
    left: HtmlNode,
    right: HtmlNode,
    left_part: SourceSpan,
    right_part: SourceSpan,
) -> Option<HtmlParagraphJoin> {
    match (left.kind, right.kind) {
        (
            HtmlNodeKind::Element { opening: left_open, closing: Some(close) },
            HtmlNodeKind::Element { opening: right_open, closing: Some(right_close) },
        ) => if paragraph_name(left_open.name@) && paragraph_name(right_open.name@) && left.parent
            == right.parent && left.source == left_part && right.source == right_part {
            Some(
                HtmlParagraphJoin {
                    closing: close.source,
                    opening: right_open.source,
                    right_closing: right_close.source,
                    same_tag: left_open.name@ == right_open.name@,
                },
            )
        } else {
            None
        },
        _ => None,
    }
}

/// Whether `range` is one of the two tags at the seam, or the whole seam.
pub open spec fn join_matches(join: HtmlParagraphJoin, range: SourceSpan) -> bool {
    range == join.closing || range == join.opening || covers_seam(join, range)
}

/// Whether `range` is the whole seam.
pub open spec fn covers_seam(join: HtmlParagraphJoin, range: SourceSpan) -> bool {
    join.closing.start <= join.opening.end && range == (SourceSpan {
        start: join.closing.start,
        end: join.opening.end,
    })
}

/// Whether the join of parts `j` and `j + 1` of cell `i` is the one at `range`.
pub open spec fn joins_at(model: HtmlModel, range: SourceSpan, i: int, j: int) -> bool {
    join_at(model, i, j) matches Some(join) && join_matches(join, range)
}

/// Whether `(a, b)` comes before `(i, j)` in the order of cells and parts.
pub open spec fn earlier_part(a: int, b: int, i: int, j: int) -> bool {
    a < i || (a == i && b < j)
}

/// The join at `range`: the first one that matches it.
pub open spec fn is_join(model: HtmlModel, range: SourceSpan, join: Option<HtmlParagraphJoin>)
    -> bool {
    match join {
        Some(found) => exists|i: int, j: int|
            0 <= i < model.cell_parts@.len() && 0 <= j < model.cell_parts@[i]@.len() - 1
                && #[trigger] joins_at(model, range, i, j) && join_at(model, i, j) == Some(found)
                && forall|a: int, b: int|
                0 <= a < model.cell_parts@.len() && 0 <= b < model.cell_parts@[a]@.len() - 1
                    && earlier_part(a, b, i, j) ==> !#[trigger] joins_at(model, range, a, b),
        None => forall|a: int, b: int|
            0 <= a < model.cell_parts@.len() && 0 <= b < model.cell_parts@[a]@.len() - 1
                ==> !#[trigger] joins_at(model, range, a, b),
    }
}

/// The join at `range`, if there is one.
pub open spec fn paragraph_join(model: HtmlModel, range: SourceSpan) -> Option<HtmlParagraphJoin> {
    choose|join: Option<HtmlParagraphJoin>| is_join(model, range, join)
}

/// There is one join at a range.
pub proof fn lemma_join_unique(
    model: HtmlModel,
    range: SourceSpan,
    a: Option<HtmlParagraphJoin>,
    b: Option<HtmlParagraphJoin>,
)
    requires
        is_join(model, range, a),
        is_join(model, range, b),
    ensures
        a == b,
{
    if let (Some(left), Some(right)) = (a, b) {
        let (i, j) = choose|i: int, j: int|
            0 <= i < model.cell_parts@.len() && 0 <= j < model.cell_parts@[i]@.len() - 1
                && #[trigger] joins_at(model, range, i, j) && join_at(model, i, j) == Some(left)
                && forall|a: int, b: int|
                0 <= a < model.cell_parts@.len() && 0 <= b < model.cell_parts@[a]@.len() - 1
                    && earlier_part(a, b, i, j) ==> !#[trigger] joins_at(model, range, a, b);
        let (k, l) = choose|i: int, j: int|
            0 <= i < model.cell_parts@.len() && 0 <= j < model.cell_parts@[i]@.len() - 1
                && #[trigger] joins_at(model, range, i, j) && join_at(model, i, j) == Some(right)
                && forall|a: int, b: int|
                0 <= a < model.cell_parts@.len() && 0 <= b < model.cell_parts@[a]@.len() - 1
                    && earlier_part(a, b, i, j) ==> !#[trigger] joins_at(model, range, a, b);
        assert(!earlier_part(i, j, k, l));
        assert(!earlier_part(k, l, i, j));
    }
}

fn join_of_parts(model: &HtmlModel, i: usize, j: usize) -> (r: Option<HtmlParagraphJoin>)
    requires
        i < model.cell_parts@.len(),
        j + 1 < model.cell_parts@[i as int]@.len(),
        model.cell_parts@[i as int]@[j as int].owner matches Some(owner) ==> owner
            < model.nodes@.len(),
        model.cell_parts@[i as int]@[j + 1].owner matches Some(owner) ==> owner
            < model.nodes@.len(),
    ensures
        r == join_at(*model, i as int, j as int),
{
    let count = model.cell_parts[i].len();
    let left_part = model.cell_parts[i][j];
    let right_part = model.cell_parts[i][j + 1];
    let (a, b) = match (left_part.owner, right_part.owner) {
        (Some(a), Some(b)) => (a, b),
        _ => {
            return None;
        },
    };
    let left = &model.nodes[a];
    let right = &model.nodes[b];
    match (&left.kind, &right.kind) {
        (
            HtmlNodeKind::Element { opening: left_open, closing: Some(close) },
            HtmlNodeKind::Element { opening: right_open, closing: Some(right_close) },
        ) => {
            if !is_paragraph_name(left_open.name.as_str()) || !is_paragraph_name(
                right_open.name.as_str(),
            ) || left.parent != right.parent || left.source != left_part.source || right.source
                != right_part.source {
                return None;
            }
            Some(
                HtmlParagraphJoin {
                    closing: close.source,
                    opening: right_open.source,
                    right_closing: right_close.source,
                    same_tag: same_text(left_open.name.as_str(), right_open.name.as_str()),
                },
            )
        },
        _ => None,
    }
}

fn is_seam(join: HtmlParagraphJoin, range: SourceSpan) -> (r: bool)
    ensures
        r == covers_seam(join, range),
{
    join.closing.start <= join.opening.end && range.start == join.closing.start && range.end
        == join.opening.end
}

/// The join at a range is a join there.
pub proof fn lemma_join_found(model: HtmlModel, range: SourceSpan)
    ensures
        is_join(model, range, paragraph_join(model, range)),
{
    let found = lemma_first_join(model, range, 0, 0);
    assert(is_join(model, range, found));
}

proof fn lemma_first_join(model: HtmlModel, range: SourceSpan, i: int, j: int) -> (r: Option<
    HtmlParagraphJoin,
>)
    requires
        0 <= i <= model.cell_parts@.len(),
        0 <= j,
        forall|a: int, b: int|
            0 <= a < model.cell_parts@.len() && 0 <= b < model.cell_parts@[a]@.len() - 1
                && earlier_part(a, b, i, j) ==> !#[trigger] joins_at(model, range, a, b),
    ensures
        is_join(model, range, r),
    decreases
            model.cell_parts@.len() - i,
            if i < model.cell_parts@.len() && j < model.cell_parts@[i]@.len() {
                model.cell_parts@[i]@.len() - j
            } else {
                0
            },
{
    if i >= model.cell_parts@.len() {
        None
    } else if j >= model.cell_parts@[i]@.len() - 1 {
        lemma_first_join(model, range, i + 1, 0)
    } else if joins_at(model, range, i, j) {
        join_at(model, i, j)
    } else {
        lemma_first_join(model, range, i, j + 1)
    }
}

/// Finds the seam between two paragraphs of a cell that `range` addresses.
pub fn html_paragraph_join(model: &HtmlModel, range: SourceSpan) -> (r: Option<HtmlParagraphJoin>)
    requires
        exists|text: Seq<char>| model.wf(text),
    ensures
        r == paragraph_join(*model, range),
        is_join(*model, range, r),
{
    let found = find_join(model, range);
    proof {
        lemma_join_unique(*model, range, found, paragraph_join(*model, range));
    }
    found
}

fn find_join(model: &HtmlModel, range: SourceSpan) -> (r: Option<HtmlParagraphJoin>)
    requires
        exists|text: Seq<char>| model.wf(text),
    ensures
        is_join(*model, range, r),
{
    let ghost text = choose|text: Seq<char>| model.wf(text);
    let mut i: usize = 0;
    while i < model.cell_parts.len()
        invariant
            model.wf(text),
            i <= model.cell_parts@.len(),
            forall|a: int, b: int|
                0 <= a < i && 0 <= b < model.cell_parts@[a]@.len() - 1 ==> !#[trigger] joins_at(
                    *model,
                    range,
                    a,
                    b,
                ),
        decreases model.cell_parts@.len() - i,
    {
        let parts = &model.cell_parts[i];
        let mut j: usize = 1;
        while j < parts.len()
            invariant
                model.wf(text),
                i < model.cell_parts@.len(),
                *parts == model.cell_parts@[i as int],
                1 <= j,
                forall|a: int, b: int|
                    0 <= a <= i && 0 <= b < model.cell_parts@[a]@.len() - 1 && earlier_part(
                        a,
                        b,
                        i as int,
                        j - 1,
                    ) ==> !#[trigger] joins_at(*model, range, a, b),
            decreases parts@.len() - j,
        {
            assert(model.cell_parts@[i as int]@[j - 1].owner matches Some(owner) ==> owner
                < model.nodes@.len());
            assert(model.cell_parts@[i as int]@[j as int].owner matches Some(owner) ==> owner
                < model.nodes@.len());
            if let Some(join) = join_of_parts(model, i, j - 1) {
                if range == join.closing || range == join.opening || is_seam(join, range) {
                    assert(joins_at(*model, range, i as int, j - 1));
                    return Some(join);
                }
            }
            assert(!joins_at(*model, range, i as int, j - 1));
            j += 1;
        }
        i += 1;
    }
    None
}

/// Whether a whole formula or footnote inside `range` has the source `leaf`.
pub open spec fn whole_leaf(model: HtmlModel, range: SourceSpan, leaf: SourceSpan) -> bool {
    span_in(range, leaf) && ((exists|k: int|
        0 <= k < model.math@.len() && (#[trigger] model.math@[k]).source == leaf)
        || model.footnotes@.contains(leaf))
}

/// Whether the node is part of a larger formula or footnote inside `range`.
pub open spec fn inside_leaf(model: HtmlModel, range: SourceSpan, node: HtmlNode) -> bool {
    exists|leaf: SourceSpan|
        #[trigger] whole_leaf(model, range, leaf) && leaf != node.source && span_in(
            leaf,
            node.source,
        )
}

/// Whether deleting `range` takes the node away rather than keeping its tags.
pub open spec fn removable(model: HtmlModel, range: SourceSpan, node: HtmlNode) -> bool {
    !inside_leaf(model, range, node) && match node.kind {
        HtmlNodeKind::Text => true,
        HtmlNodeKind::Comment => false,
        HtmlNodeKind::Element { opening, .. } => whole_leaf(model, range, node.source)
            || opening.name@ == "br"@ || (opening.name@ == "img"@ && span_in(range, node.source)),
    }
}

/// The part of `node` inside `range`.
pub open spec fn clipped(range: SourceSpan, node: SourceSpan) -> (int, int) {
    (
        if node.start < range.start {
            range.start as int
        } else {
            node.start as int
        },
        if node.end < range.end {
            node.end as int
        } else {
            range.end as int
        },
    )
}

/// What the first `count` nodes lose when `range` is deleted.
pub open spec fn node_removals(model: HtmlModel, range: SourceSpan, count: int) -> Seq<EditView>
    decreases count,
{
    if count <= 0 {
        Seq::empty()
    } else {
        let before = node_removals(model, range, count - 1);
        let node = model.nodes@[count - 1];
        let (start, end) = clipped(range, node.source);
        if removable(model, range, node) && start < end {
            before.push(EditView { start, end, text: Seq::empty() })
        } else {
            before
        }
    }
}

/// The two tags at a seam go away when nothing is inserted in their place and
/// the seam is the whole range. Tags of different names stay unless
/// `merge_boundary` is set.
pub open spec fn seam_removals(
    range: SourceSpan,
    inserted: Seq<char>,
    join: Option<HtmlParagraphJoin>,
    merge_boundary: bool,
) -> Seq<EditView> {
    match join {
        Some(found) => if inserted.len() == 0 && (merge_boundary || found.same_tag) && covers_seam(
            found,
            range,
        ) {
            seq![
                EditView {
                    start: found.closing.start as int,
                    end: found.closing.end as int,
                    text: Seq::empty(),
                },
                EditView {
                    start: found.opening.start as int,
                    end: found.opening.end as int,
                    text: Seq::empty(),
                },
            ]
        } else {
            Seq::empty()
        },
        None => Seq::empty(),
    }
}

/// The first `count` of the replaced closing tags that lie inside `range`.
pub open spec fn closings_inside(range: SourceSpan, closings: Seq<EditView>, count: int) -> Seq<
    EditView,
>
    decreases count,
{
    if count <= 0 {
        Seq::empty()
    } else {
        let before = closings_inside(range, closings, count - 1);
        let closing = closings[count - 1];
        if closing.start >= range.start && closing.end <= range.end {
            before.push(closing)
        } else {
            before
        }
    }
}

/// All that goes away or changes inside `range`, in source order.
pub open spec fn range_removals(
    model: HtmlModel,
    range: SourceSpan,
    inserted: Seq<char>,
    closings: Seq<EditView>,
    merge_boundary: bool,
) -> Seq<EditView> {
    sorted_edits(
        node_removals(model, range, model.nodes@.len() as int) + seam_removals(
            range,
            inserted,
            paragraph_join(model, range),
            merge_boundary,
        ) + closings_inside(range, closings, closings.len() as int),
    )
}

/// What stays between `cursor` and `end`. The inserted text, if it was not
/// placed yet, goes to the first thing that is removed.
pub open spec fn kept_text(
    text: Seq<char>,
    cursor: int,
    end: int,
    inserted: Seq<char>,
    removed: Seq<EditView>,
) -> Seq<char>
    decreases removed.len(),
{
    if removed.len() == 0 {
        inserted + span(text, cursor, end)
    } else {
        let first = removed[0];
        let head = if first.start > cursor {
            span(text, cursor, first.start)
        } else {
            Seq::empty()
        };
        head + inserted + first.text + kept_text(
            text,
            if first.end > cursor {
                first.end
            } else {
                cursor
            },
            end,
            Seq::empty(),
            removed.drop_first(),
        )
    }
}

/// What stands before the inserted text and the text itself.
pub open spec fn through_insertion(
    text: Seq<char>,
    start: int,
    inserted: Seq<char>,
    removed: Seq<EditView>,
) -> Seq<char> {
    if removed.len() > 0 && removed[0].start > start {
        span(text, start, removed[0].start) + inserted
    } else {
        inserted
    }
}

fn is_whole_leaf(model: &HtmlModel, range: SourceSpan, leaf: SourceSpan) -> (r: bool)
    ensures
        r == whole_leaf(*model, range, leaf),
{
    if !span_contains(range, leaf) {
        return false;
    }
    let mut k: usize = 0;
    while k < model.math.len()
        invariant
            span_in(range, leaf),
            k <= model.math@.len(),
            forall|m: int| 0 <= m < k ==> (#[trigger] model.math@[m]).source != leaf,
        decreases model.math@.len() - k,
    {
        if model.math[k].source == leaf {
            return true;
        }
        k += 1;
    }
    let mut f: usize = 0;
    while f < model.footnotes.len()
        invariant
            span_in(range, leaf),
            f <= model.footnotes@.len(),
            forall|m: int| 0 <= m < f ==> model.footnotes@[m] != leaf,
        decreases model.footnotes@.len() - f,
    {
        if model.footnotes[f] == leaf {
            assert(model.footnotes@[f as int] == leaf);
            return true;
        }
        f += 1;
    }
    false
}

fn is_inside_leaf(model: &HtmlModel, range: SourceSpan, node: &HtmlNode) -> (r: bool)
    ensures
        r == inside_leaf(*model, range, *node),
{
    let mut k: usize = 0;
    while k < model.math.len()
        invariant
            k <= model.math@.len(),
            forall|m: int|
                0 <= m < k ==> !(span_in(range, (#[trigger] model.math@[m]).source)
                    && model.math@[m].source != node.source && span_in(
                    model.math@[m].source,
                    node.source,
                )),
        decreases model.math@.len() - k,
    {
        let leaf = model.math[k].source;
        if span_contains(range, leaf) && leaf != node.source && span_contains(leaf, node.source) {
            assert(whole_leaf(*model, range, leaf));
            return true;
        }
        k += 1;
    }
    let mut f: usize = 0;
    while f < model.footnotes.len()
        invariant
            f <= model.footnotes@.len(),
            forall|m: int|
                0 <= m < f ==> !(span_in(range, #[trigger] model.footnotes@[m])
                    && model.footnotes@[m] != node.source && span_in(
                    model.footnotes@[m],
                    node.source,
                )),
        decreases model.footnotes@.len() - f,
    {
        let leaf = model.footnotes[f];
        if span_contains(range, leaf) && leaf != node.source && span_contains(leaf, node.source) {
            assert(model.footnotes@.contains(leaf));
            assert(whole_leaf(*model, range, leaf));
            return true;
        }
        f += 1;
    }
    false
}

fn is_removable(model: &HtmlModel, range: SourceSpan, node: &HtmlNode) -> (r: bool)
    ensures
        r == removable(*model, range, *node),
{
    if is_inside_leaf(model, range, node) {
        return false;
    }
    match &node.kind {
        HtmlNodeKind::Text => true,
        HtmlNodeKind::Comment => false,
        HtmlNodeKind::Element { opening, .. } => is_whole_leaf(model, range, node.source)
            || same_text(opening.name.as_str(), "br") || (same_text(opening.name.as_str(), "img")
            && span_contains(range, node.source)),
    }
}

/// Whether `edit` replaces a slice of `text` inside `range`.
pub open spec fn edit_inside(text: Seq<char>, range: SourceSpan, edit: EditView) -> bool {
    sliceable(text, edit.start, edit.end) && range.start <= edit.start && edit.end <= range.end
}

/// Whether every one of `edits` replaces a slice of `text` inside `range`.
pub open spec fn all_inside(text: Seq<char>, range: SourceSpan, edits: Seq<EditView>) -> bool {
    forall|i: int| 0 <= i < edits.len() ==> edit_inside(text, range, #[trigger] edits[i])
}

proof fn lemma_sorted_inside(text: Seq<char>, range: SourceSpan, edits: Seq<EditView>)
    requires
        all_inside(text, range, edits),
    ensures
        all_inside(text, range, sorted_edits(edits)),
{
    law_sorted_edits(edits);
    let sorted = sorted_edits(edits);
    assert forall|i: int| 0 <= i < sorted.len() implies edit_inside(
        text,
        range,
        #[trigger] sorted[i],
    ) by {
        assert(sorted.contains(sorted[i]));
        let k = choose|k: int| 0 <= k < edits.len() && edits[k] == sorted[i];
    }
}

/// The tags of a join address the text, in order.
pub proof fn lemma_join_wf(
    text: Seq<char>,
    model: HtmlModel,
    range: SourceSpan,
    join: HtmlParagraphJoin,
)
    requires
        model.wf(text),
        is_join(model, range, Some(join)),
    ensures
        span_wf(text, join.closing),
        span_wf(text, join.opening),
        span_wf(text, join.right_closing),
        join.opening.end <= join.right_closing.start,
        join.right_closing.start < join.right_closing.end,
        join.closing.start < join.closing.end,
        join.closing.end <= join.opening.start,
        join.opening.start < join.opening.end,
{
    let (i, j) = choose|i: int, j: int|
        0 <= i < model.cell_parts@.len() && 0 <= j < model.cell_parts@[i]@.len() - 1
            && #[trigger] joins_at(model, range, i, j) && join_at(model, i, j) == Some(join);
    let left = model.cell_parts@[i]@[j];
    let right = model.cell_parts@[i]@[j + 1];
    assert(model.nodes@[left.owner->0 as int].wf(text));
    assert(model.nodes@[right.owner->0 as int].wf(text));
}

/// Replaces `range` by `inserted`, but keeps the tags inside it. Closing tags
/// inside the range take the texts that `closings` give them. Also says how many
/// bytes of the result end with the inserted text.
pub fn html_table_replacement_with_closings(
    source: &str,
    model: &HtmlModel,
    range: SourceSpan,
    inserted: &str,
    closings: &Vec<Edit>,
    merge_boundary: bool,
) -> (r: (String, usize))
    requires
        model.wf(source@),
        span_wf(source@, range),
        forall|i: int|
            0 <= i < closings@.len() ==> sliceable(
                source@,
                (#[trigger] closings@[i])@.start,
                closings@[i]@.end,
            ),
    ensures
        replaced(
            source@,
            *model,
            range,
            inserted@,
            edit_views(closings@),
            merge_boundary,
            r.0@,
            r.1 as int,
        ),
{
    let join = html_paragraph_join(model, range);
    let ghost wanted_seam = seam_removals(range, inserted@, join, merge_boundary);
    let ghost views = edit_views(closings@);
    let mut removed: Vec<Edit> = Vec::new();
    let ghost mut listed: Seq<EditView> = Seq::empty();
    let mut n: usize = 0;
    assert(edit_views(removed@) =~= sorted_edits(listed));
    while n < model.nodes.len()
        invariant
            model.wf(source@),
            span_wf(source@, range),
            n <= model.nodes@.len(),
            listed == node_removals(*model, range, n as int),
            edit_views(removed@) == sorted_edits(listed),
            all_inside(source@, range, listed),
        decreases model.nodes@.len() - n,
    {
        let node = &model.nodes[n];
        assert(model.nodes@[n as int].wf(source@));
        let start: usize = if node.source.start < range.start {
            range.start
        } else {
            node.source.start
        };
        let end: usize = if node.source.end < range.end {
            node.source.end
        } else {
            range.end
        };
        if is_removable(model, range, node) && start < end {
            let edit = Edit::replace(start, end, String::new());
            proof {
                let grown = listed.push(edit@);
                assert(grown.drop_last() =~= listed);
                assert(edit@.text =~= Seq::empty());
                listed = grown;
            }
            insert_sorted(&mut removed, edit);
        }
        n += 1;
    }
    let ghost nodes_listed = listed;
    if let Some(found) = join {
        if inserted.is_empty() && (merge_boundary || found.same_tag) && is_seam(found, range) {
            proof {
                lemma_join_wf(source@, *model, range, found);
            }
            let left = Edit::replace(found.closing.start, found.closing.end, String::new());
            let right = Edit::replace(found.opening.start, found.opening.end, String::new());
            proof {
                let one = listed.push(left@);
                let two = one.push(right@);
                assert(one.drop_last() =~= listed);
                assert(two.drop_last() =~= one);
                assert(sorted_edits(one) == sorted_insert(sorted_edits(listed), left@));
                assert(sorted_edits(two) == sorted_insert(sorted_edits(one), right@));
                assert(left@.text =~= Seq::empty());
                assert(right@.text =~= Seq::empty());
                assert(wanted_seam =~= seq![left@, right@]);
                assert(two =~= nodes_listed + wanted_seam);
                listed = two;
            }
            insert_sorted(&mut removed, left);
            insert_sorted(&mut removed, right);
        }
    }
    assert(listed =~= nodes_listed + wanted_seam);
    let ghost seam_listed = listed;
    let mut c: usize = 0;
    assert(listed =~= seam_listed + closings_inside(range, views, 0));
    while c < closings.len()
        invariant
            views == edit_views(closings@),
            c <= closings@.len(),
            forall|i: int|
                0 <= i < closings@.len() ==> sliceable(
                    source@,
                    (#[trigger] closings@[i])@.start,
                    closings@[i]@.end,
                ),
            listed == seam_listed + closings_inside(range, views, c as int),
            edit_views(removed@) == sorted_edits(listed),
            all_inside(source@, range, listed),
        decreases closings@.len() - c,
    {
        let closing = &closings[c];
        assert(views[c as int] == closing@);
        if closing.range.start.value >= range.start as u64 && closing.range.end.value
            <= range.end as u64 {
            let edit = closing.duplicate();
            proof {
                let grown = listed.push(edit@);
                assert(grown.drop_last() =~= listed);
                assert(grown =~= seam_listed + closings_inside(range, views, c + 1));
                listed = grown;
            }
            insert_sorted(&mut removed, edit);
        }
        c += 1;
    }
    proof {
        assert(sorted_edits(listed) == range_removals(
            *model,
            range,
            inserted@,
            views,
            merge_boundary,
        ));
        lemma_sorted_inside(source@, range, listed);
    }
    let made = keep_rest(source, range, inserted, &removed);
    assert(replaced(
        source@,
        *model,
        range,
        inserted@,
        views,
        merge_boundary,
        made.0@,
        made.1 as int,
    ));
    made
}

/// Whether `made` is what replaces `range`, with the inserted text ending at
/// byte `input_end` of it.
pub open spec fn replaced(
    text: Seq<char>,
    model: HtmlModel,
    range: SourceSpan,
    inserted: Seq<char>,
    closings: Seq<EditView>,
    merge_boundary: bool,
    made: Seq<char>,
    input_end: int,
) -> bool {
    let removed = range_removals(model, range, inserted, closings, merge_boundary);
    &&& made == kept_text(text, range.start as int, range.end as int, inserted, removed)
    &&& input_end == byte_len(through_insertion(text, range.start as int, inserted, removed))
}

/// Splices the kept pieces of `range` together.
fn keep_rest(source: &str, range: SourceSpan, inserted: &str, removed: &Vec<Edit>) -> (r: (
    String,
    usize,
))
    requires
        span_wf(source@, range),
        all_inside(source@, range, edit_views(removed@)),
    ensures
        r.0@ == kept_text(
            source@,
            range.start as int,
            range.end as int,
            inserted@,
            edit_views(removed@),
        ),
        r.1 == byte_len(
            through_insertion(source@, range.start as int, inserted@, edit_views(removed@)),
        ),
{
    let ghost views = edit_views(removed@);
    let mut kept = String::new();
    let mut cursor: usize = range.start;
    let mut placed = false;
    let mut input_end: usize = 0;
    let mut i: usize = 0;
    proof {
        assert(views.skip(0) =~= views);
        assert(kept@ + kept_text(
            source@,
            range.start as int,
            range.end as int,
            inserted@,
            views,
        ) =~= kept_text(source@, range.start as int, range.end as int, inserted@, views));
    }
    while i < removed.len()
        invariant
            views == edit_views(removed@),
            span_wf(source@, range),
            all_inside(source@, range, views),
            sliceable(source@, cursor as int, range.end as int),
            range.start <= cursor,
            i <= views.len(),
            placed == (i > 0),
            !placed ==> cursor == range.start && kept@ == Seq::<char>::empty(),
            placed ==> input_end == byte_len(
                through_insertion(source@, range.start as int, inserted@, views),
            ),
            kept@ + kept_text(
                source@,
                cursor as int,
                range.end as int,
                if placed {
                    Seq::empty()
                } else {
                    inserted@
                },
                views.skip(i as int),
            ) == kept_text(source@, range.start as int, range.end as int, inserted@, views),
        decreases views.len() - i,
    {
        let edit = &removed[i];
        let ghost before = kept@;
        let ghost rest = views.skip(i as int);
        assert(views[i as int] == edit@);
        assert(edit_inside(source@, range, views[i as int]));
        assert(rest[0] == edit@);
        assert(rest.drop_first() =~= views.skip(i + 1));
        let start = edit.range.start.value as usize;
        let end = edit.range.end.value as usize;
        if start > cursor {
            kept.push_str(slice(source, cursor, start));
        }
        if !placed {
            kept.push_str(inserted);
            input_end = text_len(kept.as_str());
            placed = true;
            assert(kept@ =~= through_insertion(source@, range.start as int, inserted@, views));
        }
        kept.push_str(edit.text.as_str());
        let next: usize = if end > cursor {
            end
        } else {
            cursor
        };
        assert(kept@ + kept_text(
            source@,
            next as int,
            range.end as int,
            Seq::empty(),
            views.skip(i + 1),
        ) =~= before + kept_text(
            source@,
            cursor as int,
            range.end as int,
            if i > 0 {
                Seq::empty()
            } else {
                inserted@
            },
            rest,
        ));
        cursor = next;
        i += 1;
    }
    let ghost before = kept@;
    assert(views.skip(i as int) =~= Seq::empty());
    if !placed {
        kept.push_str(inserted);
        input_end = text_len(kept.as_str());
        assert(kept@ =~= inserted@);
    }
    kept.push_str(slice(source, cursor, range.end));
    assert(kept@ =~= before + ((if placed {
        Seq::empty()
    } else {
        inserted@
    }) + span(source@, cursor as int, range.end as int)));
    (kept, input_end)
}

/// The markup that a range is edited in: that of the HTML table around it, where both its
/// ends lie in cells. There is none in source mode.
pub open spec fn cell_markup(source_mode: bool, table: Option<&HtmlModel>, inside_cells: bool)
    -> Option<&HtmlModel> {
    if !source_mode && inside_cells {
        table
    } else {
        None
    }
}

/// Replaces `range` by `inserted`, but keeps the tags inside it, and says where the
/// inserted text ends. `None` in source mode and where an end of the range lies in no cell
/// of the HTML table `table`.
pub fn html_table_replacement_text(
    source_mode: bool,
    source: &str,
    table: Option<&HtmlModel>,
    inside_cells: bool,
    range: SourceSpan,
    inserted: &str,
) -> (r: Option<(String, usize)>)
    requires
        table matches Some(model) ==> model.wf(source@),
        table is Some && inside_cells ==> span_wf(source@, range),
    ensures
        match cell_markup(source_mode, table, inside_cells) {
            Some(model) => r matches Some(made) && replaced(
                source@,
                *model,
                range,
                inserted@,
                Seq::empty(),
                false,
                made.0@,
                made.1 as int,
            ),
            None => r is None,
        },
{
    if source_mode || !inside_cells {
        return None;
    }
    let model = table?;
    let closings: Vec<Edit> = Vec::new();
    assert(edit_views(closings@) =~= Seq::empty());
    Some(html_table_replacement_with_closings(source, model, range, inserted, &closings, false))
}

/// What stays of `range` when its text is deleted: the tags inside it.
pub fn html_table_deletion_text(
    source_mode: bool,
    source: &str,
    table: Option<&HtmlModel>,
    inside_cells: bool,
    range: SourceSpan,
) -> (r: Option<String>)
    requires
        table matches Some(model) ==> model.wf(source@),
        table is Some && inside_cells ==> span_wf(source@, range),
    ensures
        match cell_markup(source_mode, table, inside_cells) {
            Some(model) => r matches Some(text) && text@ == deleted_text(source@, *model, range),
            None => r is None,
        },
{
    let (text, _) = html_table_replacement_text(
        source_mode,
        source,
        table,
        inside_cells,
        range,
        "",
    )?;
    Some(text)
}

/// What stays of `range` when its text is deleted.
pub open spec fn deleted_text(text: Seq<char>, model: HtmlModel, range: SourceSpan) -> Seq<char> {
    kept_text(
        text,
        range.start as int,
        range.end as int,
        ""@,
        range_removals(model, range, ""@, Seq::empty(), false),
    )
}

/// Encodes typed or pasted plain text and puts it in place of `range`.
pub fn html_table_cell_input(
    source_mode: bool,
    source: &str,
    table: Option<&HtmlModel>,
    inside_cells: bool,
    range: SourceSpan,
    text: &str,
) -> (r: Option<String>)
    requires
        table matches Some(model) ==> model.wf(source@),
        table is Some && inside_cells ==> span_wf(source@, range),
    ensures
        match cell_markup(source_mode, table, inside_cells) {
            Some(model) => r matches Some(made) && made@ == kept_text(
                source@,
                range.start as int,
                range.end as int,
                encoded_cell_text(text@),
                range_removals(*model, range, encoded_cell_text(text@), Seq::empty(), false),
            ),
            None => r is None,
        },
{
    let encoded = encode_html_cell_text(text);
    let (made, _) = html_table_replacement_text(
        source_mode,
        source,
        table,
        inside_cells,
        range,
        encoded.as_str(),
    )?;
    Some(made)
}

/// Where the caret stands in a replacement of `replacement_len` bytes: behind
/// the inserted text. `None` where the replacement is shorter than what stays.
pub fn html_table_input_cursor(
    source_mode: bool,
    source: &str,
    table: Option<&HtmlModel>,
    inside_cells: bool,
    range: SourceSpan,
    replacement_len: usize,
) -> (r: Option<usize>)
    requires
        table matches Some(model) ==> model.wf(source@),
        table is Some && inside_cells ==> span_wf(source@, range),
    ensures
        match cell_markup(source_mode, table, inside_cells) {
            Some(model) => {
                let kept = byte_len(deleted_text(source@, *model, range));
                let prefix = byte_len(
                    through_insertion(
                        source@,
                        range.start as int,
                        ""@,
                        range_removals(*model, range, ""@, Seq::empty(), false),
                    ),
                );
                let at = replacement_len - kept + prefix;
                match r {
                    Some(cursor) => kept <= replacement_len && cursor == at,
                    None => kept > replacement_len || at > usize::MAX,
                }
            },
            None => r is None,
        },
{
    let (kept, prefix) = html_table_replacement_text(
        source_mode,
        source,
        table,
        inside_cells,
        range,
        "",
    )?;
    let length = text_len(kept.as_str());
    if replacement_len < length {
        return None;
    }
    (replacement_len - length).checked_add(prefix)
}

/// Where a range of a deletion lies.
#[derive(Clone, Copy, Debug, PartialEq, Eq, Structural)]
pub struct RangeContext {
    /// The HTML region of the table that the range starts in.
    pub region: Option<usize>,
    /// Whether both ends lie in cells of that table.
    pub inside_cells: bool,
}

/// The ranges with every overlap cut off the later one.
pub open spec fn normalized(ranges: Seq<SourceSpan>) -> Seq<SourceSpan>
    decreases ranges.len(),
{
    if ranges.len() == 0 {
        Seq::empty()
    } else {
        let before = normalized(ranges.drop_last());
        let floor: usize = if before.len() == 0 {
            0
        } else {
            before.last().end
        };
        let range = ranges.last();
        let start: usize = if range.start < floor {
            floor
        } else {
            range.start
        };
        let end: usize = if range.end < start {
            start
        } else {
            range.end
        };
        before.push(SourceSpan { start, end })
    }
}

/// Cuts every overlap off the later range.
pub fn normalize_ranges(ranges: &Vec<SourceSpan>) -> (r: Vec<SourceSpan>)
    ensures
        r@ == normalized(ranges@),
{
    let mut out: Vec<SourceSpan> = Vec::new();
    let mut floor: usize = 0;
    let mut i: usize = 0;
    assert(ranges@.take(0) =~= Seq::empty());
    while i < ranges.len()
        invariant
            i <= ranges@.len(),
            out@.len() == i,
            out@ == normalized(ranges@.take(i as int)),
            floor == (if i == 0 {
                0
            } else {
                out@.last().end
            }),
        decreases ranges@.len() - i,
    {
        let range = ranges[i];
        assert(ranges@.take(i + 1).drop_last() =~= ranges@.take(i as int));
        assert(ranges@.take(i + 1).last() == range);
        let start: usize = if range.start < floor {
            floor
        } else {
            range.start
        };
        let end: usize = if range.end < start {
            start
        } else {
            range.end
        };
        out.push(SourceSpan::new(start, end));
        floor = end;
        i += 1;
    }
    assert(ranges@.take(i as int) =~= ranges@);
    out
}

/// Normalized ranges follow each other without overlap.
pub proof fn law_normalized_ranges_are_ordered(ranges: Seq<SourceSpan>)
    ensures
        normalized(ranges).len() == ranges.len(),
        forall|i: int|
            0 <= i < ranges.len() ==> (#[trigger] normalized(ranges)[i]).start <= normalized(
                ranges,
            )[i].end,
        forall|i: int, j: int|
            #![trigger normalized(ranges)[i], normalized(ranges)[j]]
            0 <= i < j < ranges.len() ==> normalized(ranges)[i].end <= normalized(ranges)[j].start,
    decreases ranges.len(),
{
    if ranges.len() > 0 {
        law_normalized_ranges_are_ordered(ranges.drop_last());
    }
}

/// The seam that the range is, if it is one.
pub open spec fn seam_of(regions: Seq<HtmlModel>, range: SourceSpan, context: RangeContext)
    -> Option<HtmlParagraphJoin> {
    match context.region {
        Some(region) => match paragraph_join(regions[region as int], range) {
            Some(join) if covers_seam(join, range) => Some(join),
            _ => None,
        },
        None => None,
    }
}

/// `closings` without the one that starts at `start`.
pub open spec fn without_start(closings: Seq<EditView>, start: int) -> Seq<EditView>
    decreases closings.len(),
{
    if closings.len() == 0 {
        Seq::empty()
    } else if closings.last().start == start {
        without_start(closings.drop_last(), start)
    } else {
        without_start(closings.drop_last(), start).push(closings.last())
    }
}

/// What the closing tag at `closing` reads: what an earlier join made of it, or
/// its own text.
pub open spec fn inherited(text: Seq<char>, closings: Seq<EditView>, closing: SourceSpan) -> Seq<char>
    decreases closings.len(),
{
    if closings.len() == 0 {
        span(text, closing.start as int, closing.end as int)
    } else if closings.last().start == closing.start {
        closings.last().text
    } else {
        inherited(text, closings.drop_last(), closing)
    }
}

/// The closing tags after one more join: the tag that closes the right paragraph
/// closes the left one from now on.
pub open spec fn with_join(text: Seq<char>, closings: Seq<EditView>, join: HtmlParagraphJoin) -> Seq<
    EditView,
> {
    sorted_insert(
        without_start(
            without_start(closings, join.closing.start as int),
            join.right_closing.start as int,
        ),
        EditView {
            start: join.right_closing.start as int,
            end: join.right_closing.end as int,
            text: inherited(text, closings, join.closing),
        },
    )
}

/// The closing tags after the joins of the first `count` ranges.
pub open spec fn joined_closings(
    text: Seq<char>,
    regions: Seq<HtmlModel>,
    ranges: Seq<SourceSpan>,
    contexts: Seq<RangeContext>,
    count: int,
) -> Seq<EditView>
    decreases count,
{
    if count <= 0 {
        Seq::empty()
    } else {
        let before = joined_closings(text, regions, ranges, contexts, count - 1);
        match seam_of(regions, ranges[count - 1], contexts[count - 1]) {
            Some(join) => with_join(text, before, join),
            None => before,
        }
    }
}

/// Those of `closings` whose text changes.
pub open spec fn changed_closings(text: Seq<char>, closings: Seq<EditView>) -> Seq<EditView>
    decreases closings.len(),
{
    if closings.len() == 0 {
        Seq::empty()
    } else {
        let before = changed_closings(text, closings.drop_last());
        let last = closings.last();
        if last.text == span(text, last.start, last.end) {
            before
        } else {
            before.push(last)
        }
    }
}

/// The edits of the first `count` ranges.
pub open spec fn deletion_edits(
    text: Seq<char>,
    regions: Seq<HtmlModel>,
    ranges: Seq<SourceSpan>,
    contexts: Seq<RangeContext>,
    closings: Seq<EditView>,
    count: int,
) -> Seq<EditView>
    decreases count,
{
    if count <= 0 {
        Seq::empty()
    } else {
        let before = deletion_edits(text, regions, ranges, contexts, closings, count - 1);
        let range = ranges[count - 1];
        if range.start == range.end {
            before
        } else {
            before.push(
                EditView {
                    start: range.start as int,
                    end: range.end as int,
                    text: deletion_text(text, regions, range, contexts[count - 1], closings),
                },
            )
        }
    }
}

/// What stays of one deleted range.
pub open spec fn deletion_text(
    text: Seq<char>,
    regions: Seq<HtmlModel>,
    range: SourceSpan,
    context: RangeContext,
    closings: Seq<EditView>,
) -> Seq<char> {
    match context.region {
        Some(region) if context.inside_cells => kept_text(
            text,
            range.start as int,
            range.end as int,
            ""@,
            range_removals(regions[region as int], range, ""@, closings, true),
        ),
        _ => ""@,
    }
}

/// Whether `closing` lies inside one of the ranges.
pub open spec fn deleted_with(ranges: Seq<SourceSpan>, closing: EditView) -> bool {
    exists|i: int|
        0 <= i < ranges.len() && (#[trigger] ranges[i]).start <= closing.start && closing.end
            <= ranges[i].end
}

/// Whether one of the ranges cuts into `closing`.
pub open spec fn cut_by(ranges: Seq<SourceSpan>, closing: EditView) -> bool {
    exists|i: int|
        0 <= i < ranges.len() && (#[trigger] ranges[i]).start < closing.end && closing.start
            < ranges[i].end
}

/// The edits of those closing tags that no range deletes.
pub open spec fn closing_edits(ranges: Seq<SourceSpan>, closings: Seq<EditView>) -> Seq<EditView>
    decreases closings.len(),
{
    if closings.len() == 0 {
        Seq::empty()
    } else {
        let before = closing_edits(ranges, closings.drop_last());
        if deleted_with(ranges, closings.last()) {
            before
        } else {
            before.push(closings.last())
        }
    }
}

/// Whether every one of `edits` replaces a slice of `text` that is not empty.
spec fn closings_wf(text: Seq<char>, edits: Seq<EditView>) -> bool {
    forall|i: int|
        0 <= i < edits.len() ==> sliceable(text, (#[trigger] edits[i]).start, edits[i].end)
}

proof fn lemma_closings_wf(text: Seq<char>, closings: Seq<EditView>, start: int, edit: EditView)
    requires
        closings_wf(text, closings),
        sliceable(text, edit.start, edit.end),
    ensures
        closings_wf(text, without_start(closings, start)),
        closings_wf(text, sorted_insert(closings, edit)),
        closings_wf(text, changed_closings(text, closings)),
    decreases closings.len(),
{
    if closings.len() > 0 {
        assert(closings_wf(text, closings.drop_last()));
        lemma_closings_wf(text, closings.drop_last(), start, edit);
    }
}

fn drop_start(closings: &Vec<Edit>, start: usize) -> (r: Vec<Edit>)
    ensures
        edit_views(r@) == without_start(edit_views(closings@), start as int),
{
    let ghost views = edit_views(closings@);
    let mut out: Vec<Edit> = Vec::new();
    let mut i: usize = 0;
    assert(views.take(0) =~= Seq::empty());
    assert(edit_views(out@) =~= Seq::empty());
    while i < closings.len()
        invariant
            views == edit_views(closings@),
            i <= closings@.len(),
            edit_views(out@) == without_start(views.take(i as int), start as int),
        decreases closings@.len() - i,
    {
        assert(views.take(i + 1).drop_last() =~= views.take(i as int));
        assert(views.take(i + 1).last() == closings@[i as int]@);
        if closings[i].range.start.value != start as u64 {
            let ghost before = out@;
            let kept = closings[i].duplicate();
            out.push(kept);
            assert(edit_views(out@) =~= edit_views(before).push(kept@));
        }
        i += 1;
    }
    assert(views.take(i as int) =~= views);
    out
}

fn inherited_text(source: &str, closings: &Vec<Edit>, closing: SourceSpan) -> (r: String)
    requires
        span_wf(source@, closing),
    ensures
        r@ == inherited(source@, edit_views(closings@), closing),
{
    let ghost views = edit_views(closings@);
    let mut i: usize = closings.len();
    assert(views.take(i as int) =~= views);
    while i > 0
        invariant
            views == edit_views(closings@),
            i <= closings@.len(),
            inherited(source@, views.take(i as int), closing) == inherited(source@, views, closing),
        decreases i,
    {
        assert(views.take(i as int).drop_last() =~= views.take(i - 1));
        assert(views.take(i as int).last() == closings@[i - 1]@);
        if closings[i - 1].range.start.value == closing.start as u64 {
            return closings[i - 1].text.clone();
        }
        i -= 1;
    }
    slice(source, closing.start, closing.end).to_owned()
}

fn find_seam(source: &str, regions: &Vec<HtmlModel>, range: SourceSpan, context: RangeContext) -> (r:
    Option<HtmlParagraphJoin>)
    requires
        forall|i: int| 0 <= i < regions@.len() ==> (#[trigger] regions@[i]).wf(source@),
        context.region matches Some(region) ==> region < regions@.len(),
    ensures
        r == seam_of(regions@, range, context),
        r matches Some(join) ==> span_wf(source@, join.closing) && span_wf(
            source@,
            join.right_closing,
        ),
{
    if let Some(region) = context.region {
        assert(regions@[region as int].wf(source@));
        if let Some(join) = html_paragraph_join(&regions[region], range) {
            if is_seam(join, range) {
                proof {
                    lemma_join_wf(source@, regions@[region as int], range, join);
                }
                return Some(join);
            }
        }
    }
    None
}

fn is_deleted_with(ranges: &Vec<SourceSpan>, closing: &Edit) -> (r: bool)
    ensures
        r == deleted_with(ranges@, closing@),
{
    let mut i: usize = 0;
    while i < ranges.len()
        invariant
            i <= ranges@.len(),
            forall|k: int|
                0 <= k < i ==> !((#[trigger] ranges@[k]).start <= closing@.start && closing@.end
                    <= ranges@[k].end),
        decreases ranges@.len() - i,
    {
        if ranges[i].start as u64 <= closing.range.start.value && closing.range.end.value
            <= ranges[i].end as u64 {
            return true;
        }
        i += 1;
    }
    false
}

fn is_cut_by(ranges: &Vec<SourceSpan>, closing: &Edit) -> (r: bool)
    ensures
        r == cut_by(ranges@, closing@),
{
    let mut i: usize = 0;
    while i < ranges.len()
        invariant
            i <= ranges@.len(),
            forall|k: int|
                0 <= k < i ==> !((#[trigger] ranges@[k]).start < closing@.end && closing@.start
                    < ranges@[k].end),
        decreases ranges@.len() - i,
    {
        if (ranges[i].start as u64) < closing.range.end.value && closing.range.start.value
            < ranges[i].end as u64 {
            return true;
        }
        i += 1;
    }
    false
}

/// Whether some range is a seam between two paragraphs.
pub open spec fn has_seam(
    regions: Seq<HtmlModel>,
    ranges: Seq<SourceSpan>,
    contexts: Seq<RangeContext>,
) -> bool {
    exists|i: int|
        0 <= i < ranges.len() && #[trigger] seam_of(regions, ranges[i], contexts[i]) is Some
}

/// Plans the deletion of `ranges`, which are normalized, where one of them is the
/// seam between two paragraphs of a cell. The tags at a seam go away; the tag
/// that closes the right paragraph is rewritten to close the left one, also
/// through a chain of seams. `None` where no range is a seam; an error where a
/// range cuts into a closing tag that is to be rewritten.
pub fn plan_html_paragraph_boundaries(
    source: &str,
    regions: &Vec<HtmlModel>,
    ranges: &Vec<SourceSpan>,
    contexts: &Vec<RangeContext>,
) -> (r: Result<Option<Vec<Edit>>, EditorDocumentError>)
    requires
        forall|i: int| 0 <= i < regions@.len() ==> (#[trigger] regions@[i]).wf(source@),
        ranges@.len() == contexts@.len(),
        forall|i: int| 0 <= i < ranges@.len() ==> span_wf(source@, #[trigger] ranges@[i]),
        forall|i: int|
            0 <= i < contexts@.len() ==> ((#[trigger] contexts@[i]).region matches Some(region)
                ==> region < regions@.len()),
    ensures
        ({
            let count = ranges@.len() as int;
            let closings = changed_closings(
                source@,
                joined_closings(source@, regions@, ranges@, contexts@, count),
            );
            let cut = exists|i: int|
                0 <= i < closings.len() && !deleted_with(ranges@, #[trigger] closings[i]) && cut_by(
                    ranges@,
                    closings[i],
                );
            match r {
                Ok(None) => !has_seam(regions@, ranges@, contexts@),
                Ok(Some(edits)) => {
                    &&& has_seam(regions@, ranges@, contexts@)
                    &&& !cut
                    &&& edit_views(edits@) == sorted_edits(
                        deletion_edits(source@, regions@, ranges@, contexts@, closings, count)
                            + closing_edits(ranges@, closings),
                    )
                },
                Err(e) => {
                    &&& has_seam(regions@, ranges@, contexts@)
                    &&& cut
                    &&& e == EditorDocumentError::Selection(SelectionError::InvalidRange)
                },
            }
        }),
{
    let mut joined: Vec<Edit> = Vec::new();
    let mut found = false;
    let mut i: usize = 0;
    assert(edit_views(joined@) =~= Seq::empty());
    while i < ranges.len()
        invariant
            forall|i: int| 0 <= i < regions@.len() ==> (#[trigger] regions@[i]).wf(source@),
            ranges@.len() == contexts@.len(),
            forall|i: int|
                0 <= i < contexts@.len() ==> ((#[trigger] contexts@[i]).region matches Some(region)
                    ==> region < regions@.len()),
            i <= ranges@.len(),
            found <==> exists|k: int|
                0 <= k < i && #[trigger] seam_of(regions@, ranges@[k], contexts@[k]) is Some,
            edit_views(joined@) == joined_closings(
                source@,
                regions@,
                ranges@,
                contexts@,
                i as int,
            ),
            closings_wf(source@, edit_views(joined@)),
        decreases ranges@.len() - i,
    {
        assert(contexts@[i as int].region matches Some(region) ==> region < regions@.len());
        let seam = find_seam(source, regions, ranges[i], contexts[i]);
        assert(seam == seam_of(regions@, ranges@[i as int], contexts@[i as int]));
        if let Some(join) = seam {
            found = true;
            let text = inherited_text(source, &joined, join.closing);
            let edit = Edit::replace(join.right_closing.start, join.right_closing.end, text);
            let ghost before = edit_views(joined@);
            joined = drop_start(&joined, join.closing.start);
            let ghost once = edit_views(joined@);
            joined = drop_start(&joined, join.right_closing.start);
            proof {
                lemma_closings_wf(source@, before, join.closing.start as int, edit@);
                lemma_closings_wf(source@, once, join.right_closing.start as int, edit@);
                lemma_closings_wf(source@, edit_views(joined@), 0, edit@);
            }
            insert_sorted(&mut joined, edit);
        }
        i += 1;
    }
    if !found {
        return Ok(None);
    }
    let closings = keep_changed(source, &joined);
    let ghost closing_views = edit_views(closings@);
    assert(closings_wf(source@, closing_views)) by {
        crate::text::lemma_boundary_ends(source@);
        lemma_closings_wf(
            source@,
            edit_views(joined@),
            0,
            EditView { start: 0, end: 0, text: Seq::empty() },
        );
    }
    assert forall|k: int| 0 <= k < closings@.len() implies sliceable(
        source@,
        (#[trigger] closings@[k])@.start,
        closings@[k]@.end,
    ) by {
        assert(closing_views[k] == closings@[k]@);
    }
    let mut edits: Vec<Edit> = Vec::new();
    let ghost mut listed: Seq<EditView> = Seq::empty();
    let mut j: usize = 0;
    assert(edit_views(edits@) =~= sorted_edits(listed));
    while j < ranges.len()
        invariant
            forall|i: int| 0 <= i < regions@.len() ==> (#[trigger] regions@[i]).wf(source@),
            ranges@.len() == contexts@.len(),
            forall|i: int| 0 <= i < ranges@.len() ==> span_wf(source@, #[trigger] ranges@[i]),
            forall|i: int|
                0 <= i < contexts@.len() ==> ((#[trigger] contexts@[i]).region matches Some(region)
                    ==> region < regions@.len()),
            forall|k: int|
                0 <= k < closings@.len() ==> sliceable(
                    source@,
                    (#[trigger] closings@[k])@.start,
                    closings@[k]@.end,
                ),
            closing_views == edit_views(closings@),
            j <= ranges@.len(),
            listed == deletion_edits(
                source@,
                regions@,
                ranges@,
                contexts@,
                closing_views,
                j as int,
            ),
            edit_views(edits@) == sorted_edits(listed),
        decreases ranges@.len() - j,
    {
        let range = ranges[j];
        assert(span_wf(source@, ranges@[j as int]));
        if range.start != range.end {
            let mut text = String::new();
            assert(text@ =~= ""@) by {
                reveal_strlit("");
            }
            if let Some(region) = contexts[j].region {
                assert(contexts@[j as int].region matches Some(region) ==> region < regions@.len());
                assert(regions@[region as int].wf(source@));
                if contexts[j].inside_cells {
                    text = html_table_replacement_with_closings(
                        source,
                        &regions[region],
                        range,
                        "",
                        &closings,
                        true,
                    ).0;
                }
            }
            let edit = Edit::replace(range.start, range.end, text);
            proof {
                let grown = listed.push(edit@);
                assert(grown.drop_last() =~= listed);
                listed = grown;
            }
            insert_sorted(&mut edits, edit);
        }
        j += 1;
    }
    let ghost deletions = listed;
    let mut c: usize = 0;
    assert(closing_views.take(0) =~= Seq::empty());
    assert(listed =~= deletions + closing_edits(ranges@, closing_views.take(0)));
    while c < closings.len()
        invariant
            closing_views == edit_views(closings@),
            closing_views == changed_closings(
                source@,
                joined_closings(source@, regions@, ranges@, contexts@, ranges@.len() as int),
            ),
            has_seam(regions@, ranges@, contexts@),
            c <= closings@.len(),
            listed == deletions + closing_edits(ranges@, closing_views.take(c as int)),
            edit_views(edits@) == sorted_edits(listed),
            forall|k: int|
                0 <= k < c ==> deleted_with(ranges@, #[trigger] closing_views[k]) || !cut_by(
                    ranges@,
                    closing_views[k],
                ),
        decreases closings@.len() - c,
    {
        let closing = &closings[c];
        assert(closing_views[c as int] == closing@);
        assert(closing_views.take(c + 1).drop_last() =~= closing_views.take(c as int));
        assert(closing_views.take(c + 1).last() == closing@);
        if !is_deleted_with(ranges, closing) {
            if is_cut_by(ranges, closing) {
                return Err(EditorDocumentError::Selection(SelectionError::InvalidRange));
            }
            let edit = closing.duplicate();
            proof {
                let grown = listed.push(edit@);
                assert(grown.drop_last() =~= listed);
                assert(grown =~= deletions + closing_edits(ranges@, closing_views.take(c + 1)));
                listed = grown;
            }
            insert_sorted(&mut edits, edit);
        }
        c += 1;
    }
    assert(closing_views.take(c as int) =~= closing_views);
    Ok(Some(edits))
}

fn keep_changed(source: &str, closings: &Vec<Edit>) -> (r: Vec<Edit>)
    requires
        closings_wf(source@, edit_views(closings@)),
    ensures
        edit_views(r@) == changed_closings(source@, edit_views(closings@)),
{
    let ghost views = edit_views(closings@);
    let mut out: Vec<Edit> = Vec::new();
    let mut i: usize = 0;
    assert(views.take(0) =~= Seq::empty());
    assert(edit_views(out@) =~= Seq::empty());
    while i < closings.len()
        invariant
            views == edit_views(closings@),
            closings_wf(source@, views),
            i <= closings@.len(),
            edit_views(out@) == changed_closings(source@, views.take(i as int)),
        decreases closings@.len() - i,
    {
        let closing = &closings[i];
        assert(views[i as int] == closing@);
        assert(views.take(i + 1).drop_last() =~= views.take(i as int));
        assert(views.take(i + 1).last() == closing@);
        let length = text_len(source);
        proof {
            lemma_boundary_bounds(source@, closing@.start);
            lemma_boundary_bounds(source@, closing@.end);
        }
        let own = slice(
            source,
            closing.range.start.value as usize,
            closing.range.end.value as usize,
        );
        if !same_text(own, closing.text.as_str()) {
            let ghost before = out@;
            let kept = closing.duplicate();
            out.push(kept);
            assert(edit_views(out@) =~= edit_views(before).push(kept@));
        }
        i += 1;
    }
    assert(views.take(i as int) =~= views);
    out
}

/// Whether no two of the edits start at the same place.
pub open spec fn starts_differ(edits: Seq<EditView>) -> bool {
    forall|i: int, j: int|
        #![trigger edits[i], edits[j]]
        0 <= i < j < edits.len() ==> edits[i].start != edits[j].start
}

/// Where two paragraphs are joined, the tag that closes the right one reads like the tag
/// that closed the left one: as it is in the source, or as an earlier join made it. No other
/// closing tag changes its text. `k` is the number of a range, and `join` the seam that it
/// is.
pub proof fn law_joined_paragraph_closes_like_the_left_one(
    text: Seq<char>,
    regions: Seq<HtmlModel>,
    ranges: Seq<SourceSpan>,
    contexts: Seq<RangeContext>,
    k: int,
    join: HtmlParagraphJoin,
)
    requires
        0 <= k < ranges.len(),
        seam_of(regions, ranges[k], contexts[k]) == Some(join),
    ensures
        ({
            let before = joined_closings(text, regions, ranges, contexts, k);
            let after = joined_closings(text, regions, ranges, contexts, k + 1);
            let left = join.closing;
            let right = join.right_closing;
            &&& starts_differ(before)
            &&& exists|m: int| 0 <= m < after.len() && (#[trigger] after[m]).start == right.start
            &&& forall|m: int|
                0 <= m < after.len() && (#[trigger] after[m]).start == right.start ==> {
                    &&& after[m].end == right.end
                    &&& (forall|n: int| 0 <= n < before.len() ==> before[n].start != left.start)
                        ==> after[m].text == span(text, left.start as int, left.end as int)
                    &&& forall|n: int|
                        0 <= n < before.len() && (#[trigger] before[n]).start == left.start
                            ==> after[m].text == before[n].text
                }
            &&& forall|m: int|
                0 <= m < after.len() && (#[trigger] after[m]).start != right.start ==> after[m].start
                    != left.start && before.contains(after[m])
            &&& forall|n: int|
                0 <= n < before.len() && (#[trigger] before[n]).start != right.start
                    && before[n].start != left.start ==> after.contains(before[n])
        }),
{
    let before = joined_closings(text, regions, ranges, contexts, k);
    let after = joined_closings(text, regions, ranges, contexts, k + 1);
    let left = join.closing;
    let right = join.right_closing;
    lemma_closings_differ(text, regions, ranges, contexts, k);
    lemma_inherited(text, before, left);
    let once = without_start(before, left.start as int);
    let rest = without_start(once, right.start as int);
    lemma_without_start(before, left.start as int);
    lemma_without_start(once, right.start as int);
    let edit = EditView {
        start: right.start as int,
        end: right.end as int,
        text: inherited(text, before, left),
    };
    lemma_inserted_closing(rest, edit);
    assert(after == sorted_insert(rest, edit));
    assert(after.contains(edit));
    assert forall|m: int|
        0 <= m < after.len() && (#[trigger] after[m]).start == right.start implies after[m]
        == edit by {
        assert(after.contains(after[m]));
        if rest.contains(after[m]) {
            let n = choose|n: int| 0 <= n < rest.len() && rest[n] == after[m];
            assert(rest[n].start != right.start);
        }
    }
    assert forall|m: int|
        0 <= m < after.len() && (#[trigger] after[m]).start != right.start implies after[m].start
        != left.start && before.contains(after[m]) by {
        assert(after.contains(after[m]));
        assert(rest.contains(after[m]));
        assert(once.contains(after[m]));
        let n = choose|n: int| 0 <= n < once.len() && once[n] == after[m];
        assert(once[n].start != left.start);
    }
    assert forall|n: int|
        0 <= n < before.len() && (#[trigger] before[n]).start != right.start && before[n].start
            != left.start implies after.contains(before[n]) by {
        assert(before.contains(before[n]));
        assert(once.contains(before[n]));
        assert(rest.contains(before[n]));
    }
}

proof fn lemma_without_start(closings: Seq<EditView>, start: int)
    ensures
        ({
            let made = without_start(closings, start);
            &&& forall|i: int| 0 <= i < made.len() ==> (#[trigger] made[i]).start != start
            &&& forall|e: EditView|
                #[trigger] made.contains(e) <==> closings.contains(e) && e.start != start
            &&& starts_differ(closings) ==> starts_differ(made)
        }),
    decreases closings.len(),
{
    let made = without_start(closings, start);
    if closings.len() > 0 {
        let front = closings.drop_last();
        let rest = without_start(front, start);
        lemma_without_start(front, start);
        assert(closings =~= front.push(closings.last()));
        assert forall|e: EditView|
            #[trigger] made.contains(e) <==> closings.contains(e) && e.start != start by {
            assert(closings.contains(e) <==> front.contains(e) || e == closings.last()) by {
                if front.contains(e) {
                    let n = choose|n: int| 0 <= n < front.len() && front[n] == e;
                    assert(closings[n] == e);
                }
                if closings.contains(e) && e != closings.last() {
                    let n = choose|n: int| 0 <= n < closings.len() && closings[n] == e;
                    assert(front[n] == e);
                }
                assert(closings[closings.len() - 1] == closings.last());
            }
            if closings.last().start != start {
                assert(made.contains(e) <==> rest.contains(e) || e == closings.last()) by {
                    if rest.contains(e) {
                        let n = choose|n: int| 0 <= n < rest.len() && rest[n] == e;
                        assert(made[n] == e);
                    }
                    if made.contains(e) && e != closings.last() {
                        let n = choose|n: int| 0 <= n < made.len() && made[n] == e;
                        assert(rest[n] == e);
                    }
                    assert(made[rest.len() as int] == closings.last());
                }
            }
        }
        if starts_differ(closings) {
            assert(starts_differ(front));
            assert forall|i: int, j: int|
                #![trigger made[i], made[j]]
                0 <= i < j < made.len() implies made[i].start != made[j].start by {
                if j < rest.len() {
                    assert(made[i] == rest[i] && made[j] == rest[j]);
                } else {
                    assert(rest.contains(rest[i]));
                    let n = choose|n: int| 0 <= n < front.len() && front[n] == rest[i];
                    assert(closings[n].start != closings[closings.len() - 1].start);
                }
            }
        }
    }
}

proof fn lemma_inserted_closing(closings: Seq<EditView>, edit: EditView)
    requires
        forall|i: int| 0 <= i < closings.len() ==> (#[trigger] closings[i]).start != edit.start,
    ensures
        ({
            let made = sorted_insert(closings, edit);
            &&& forall|e: EditView|
                #[trigger] made.contains(e) <==> closings.contains(e) || e == edit
            &&& starts_differ(closings) ==> starts_differ(made)
        }),
    decreases closings.len(),
{
    let made = sorted_insert(closings, edit);
    if closings.len() == 0 || edit_precedes(closings.last(), edit) {
        assert forall|e: EditView|
            #[trigger] made.contains(e) <==> closings.contains(e) || e == edit by {
            if closings.contains(e) {
                let n = choose|n: int| 0 <= n < closings.len() && closings[n] == e;
                assert(made[n] == e);
            }
            assert(made[closings.len() as int] == edit);
        }
    } else {
        let front = closings.drop_last();
        let rest = sorted_insert(front, edit);
        lemma_inserted_closing(front, edit);
        assert forall|e: EditView|
            #[trigger] made.contains(e) <==> closings.contains(e) || e == edit by {
            assert(made.contains(e) <==> rest.contains(e) || e == closings.last()) by {
                if rest.contains(e) {
                    let n = choose|n: int| 0 <= n < rest.len() && rest[n] == e;
                    assert(made[n] == e);
                }
                if made.contains(e) && e != closings.last() {
                    let n = choose|n: int| 0 <= n < made.len() && made[n] == e;
                    assert(rest[n] == e);
                }
                assert(made[rest.len() as int] == closings.last());
            }
            assert(closings.contains(e) <==> front.contains(e) || e == closings.last()) by {
                if front.contains(e) {
                    let n = choose|n: int| 0 <= n < front.len() && front[n] == e;
                    assert(closings[n] == e);
                }
                if closings.contains(e) && e != closings.last() {
                    let n = choose|n: int| 0 <= n < closings.len() && closings[n] == e;
                    assert(front[n] == e);
                }
                assert(closings[closings.len() - 1] == closings.last());
            }
        }
        if starts_differ(closings) {
            assert(starts_differ(front));
            assert forall|i: int, j: int|
                #![trigger made[i], made[j]]
                0 <= i < j < made.len() implies made[i].start != made[j].start by {
                if j < rest.len() {
                    assert(made[i] == rest[i] && made[j] == rest[j]);
                } else {
                    assert(rest.contains(rest[i]));
                    assert(made[i] == rest[i]);
                    if rest[i] != edit {
                        let n = choose|n: int| 0 <= n < front.len() && front[n] == rest[i];
                        assert(closings[n].start != closings[closings.len() - 1].start);
                    } else {
                        assert(closings[closings.len() - 1].start != edit.start);
                    }
                }
            }
        }
    }
}

proof fn lemma_inherited(text: Seq<char>, closings: Seq<EditView>, closing: SourceSpan)
    requires
        starts_differ(closings),
    ensures
        forall|n: int|
            0 <= n < closings.len() && (#[trigger] closings[n]).start == closing.start
                ==> inherited(text, closings, closing) == closings[n].text,
        (forall|n: int| 0 <= n < closings.len() ==> closings[n].start != closing.start)
            ==> inherited(text, closings, closing) == span(
            text,
            closing.start as int,
            closing.end as int,
        ),
    decreases closings.len(),
{
    if closings.len() > 0 {
        let front = closings.drop_last();
        assert(starts_differ(front));
        lemma_inherited(text, front, closing);
        assert forall|n: int|
            0 <= n < closings.len() && (#[trigger] closings[n]).start
                == closing.start implies inherited(text, closings, closing) == closings[n].text by {
            if n < closings.len() - 1 {
                assert(closings[n].start != closings[closings.len() - 1].start);
                assert(front[n] == closings[n]);
            }
        }
        if forall|n: int| 0 <= n < closings.len() ==> closings[n].start != closing.start {
            assert(closings[closings.len() - 1].start != closing.start);
            assert forall|n: int| 0 <= n < front.len() implies front[n].start
                != closing.start by {
                assert(front[n] == closings[n]);
            }
        }
    }
}

proof fn lemma_closings_differ(
    text: Seq<char>,
    regions: Seq<HtmlModel>,
    ranges: Seq<SourceSpan>,
    contexts: Seq<RangeContext>,
    count: int,
)
    ensures
        starts_differ(joined_closings(text, regions, ranges, contexts, count)),
    decreases count,
{
    if count > 0 {
        lemma_closings_differ(text, regions, ranges, contexts, count - 1);
        let before = joined_closings(text, regions, ranges, contexts, count - 1);
        match seam_of(regions, ranges[count - 1], contexts[count - 1]) {
            Some(join) => {
                let once = without_start(before, join.closing.start as int);
                lemma_without_start(before, join.closing.start as int);
                lemma_without_start(once, join.right_closing.start as int);
                lemma_inserted_closing(
                    without_start(once, join.right_closing.start as int),
                    EditView {
                        start: join.right_closing.start as int,
                        end: join.right_closing.end as int,
                        text: inherited(text, before, join.closing),
                    },
                );
            },
            None => {},
        }
    }
}

/// A range that overlaps none before it stays as it is.
pub proof fn law_ranges_apart_are_not_cut(ranges: Seq<SourceSpan>)
    requires
        forall|i: int| 0 <= i < ranges.len() ==> (#[trigger] ranges[i]).start <= ranges[i].end,
        forall|i: int, j: int|
            #![trigger ranges[i], ranges[j]]
            0 <= i < j < ranges.len() ==> ranges[i].end <= ranges[j].start,
    ensures
        normalized(ranges) == ranges,
    decreases ranges.len(),
{
    if ranges.len() > 0 {
        let front = ranges.drop_last();
        assert forall|i: int| 0 <= i < front.len() implies (#[trigger] front[i]).start
            <= front[i].end by {
            assert(front[i] == ranges[i]);
        }
        law_ranges_apart_are_not_cut(front);
        if front.len() > 0 {
            assert(ranges[front.len() - 1].end <= ranges[ranges.len() - 1].start);
        }
        assert(normalized(ranges) =~= ranges);
    } else {
        assert(normalized(ranges) =~= ranges);
    }
}

/// Every range that is not empty is replaced, and nothing else is: `k` is the number of a
/// range, and `m` that of an edit.
pub proof fn law_ranges_are_replaced_one_for_one(
    text: Seq<char>,
    regions: Seq<HtmlModel>,
    ranges: Seq<SourceSpan>,
    contexts: Seq<RangeContext>,
    closings: Seq<EditView>,
    count: int,
    k: int,
    m: int,
)
    requires
        0 <= k < count <= ranges.len(),
    ensures
        ({
            let edits = deletion_edits(text, regions, ranges, contexts, closings, count);
            &&& ranges[k].start != ranges[k].end ==> exists|n: int|
                0 <= n < edits.len() && (#[trigger] edits[n]).start == ranges[k].start
                    && edits[n].end == ranges[k].end
            &&& 0 <= m < edits.len() ==> exists|n: int|
                0 <= n < count && (#[trigger] ranges[n]).start != ranges[n].end && edits[m].start
                    == ranges[n].start && edits[m].end == ranges[n].end
        }),
    decreases count,
{
    let before = deletion_edits(text, regions, ranges, contexts, closings, count - 1);
    let edits = deletion_edits(text, regions, ranges, contexts, closings, count);
    if count > 1 {
        law_ranges_are_replaced_one_for_one(
            text,
            regions,
            ranges,
            contexts,
            closings,
            count - 1,
            if k < count - 1 {
                k
            } else {
                0
            },
            m,
        );
    } else {
        assert(before.len() == 0);
    }
    if ranges[k].start != ranges[k].end {
        if k < count - 1 {
            let n = choose|n: int|
                0 <= n < before.len() && (#[trigger] before[n]).start == ranges[k].start
                    && before[n].end == ranges[k].end;
            assert(edits[n] == before[n]);
        } else {
            assert(edits[before.len() as int].start == ranges[k].start);
        }
    }
    if 0 <= m < before.len() {
        assert(edits[m] == before[m]);
    } else if 0 <= m < edits.len() {
        assert(ranges[count - 1].start != ranges[count - 1].end);
    }
}

/// Of the closing tags that joins rewrote, those are edited whose text changes and that no
/// range takes away, and no others: `closing` is any of them.
pub proof fn law_changed_closings_are_edited(
    text: Seq<char>,
    ranges: Seq<SourceSpan>,
    closings: Seq<EditView>,
    closing: EditView,
)
    ensures
        closing_edits(ranges, changed_closings(text, closings)).contains(closing) <==> {
            &&& closings.contains(closing)
            &&& closing.text != span(text, closing.start, closing.end)
            &&& forall|i: int|
                0 <= i < ranges.len() ==> !((#[trigger] ranges[i]).start <= closing.start
                    && closing.end <= ranges[i].end)
        },
{
    lemma_changed_closings(text, closings, closing);
    lemma_closing_edits(ranges, changed_closings(text, closings), closing);
}

proof fn lemma_changed_closings(text: Seq<char>, closings: Seq<EditView>, closing: EditView)
    ensures
        changed_closings(text, closings).contains(closing) <==> closings.contains(closing)
            && closing.text != span(text, closing.start, closing.end),
    decreases closings.len(),
{
    if closings.len() > 0 {
        let front = closings.drop_last();
        lemma_changed_closings(text, front, closing);
        lemma_contains_push(front, closings.last(), closing);
        lemma_contains_push(changed_closings(text, front), closings.last(), closing);
        assert(closings =~= front.push(closings.last()));
    }
}

proof fn lemma_closing_edits(ranges: Seq<SourceSpan>, closings: Seq<EditView>, closing: EditView)
    ensures
        closing_edits(ranges, closings).contains(closing) <==> closings.contains(closing)
            && !deleted_with(ranges, closing),
    decreases closings.len(),
{
    if closings.len() > 0 {
        let front = closings.drop_last();
        lemma_closing_edits(ranges, front, closing);
        lemma_contains_push(front, closings.last(), closing);
        lemma_contains_push(closing_edits(ranges, front), closings.last(), closing);
        assert(closings =~= front.push(closings.last()));
    }
}

proof fn lemma_contains_push(edits: Seq<EditView>, last: EditView, wanted: EditView)
    ensures
        edits.push(last).contains(wanted) <==> edits.contains(wanted) || wanted == last,
{
    let all = edits.push(last);
    if edits.contains(wanted) {
        let n = edits.index_of(wanted);
        assert(all[n] == wanted);
    }
    if all.contains(wanted) && wanted != last {
        let n = all.index_of(wanted);
        assert(edits[n] == wanted);
    }
    assert(all[edits.len() as int] == last);
}

} // verus!
