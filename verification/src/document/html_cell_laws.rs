//! What edits inside the cells of HTML tables do to their text and their tags.
use crate::document::html_cell_text::{
    clipped, closings_inside, covers_seam, encoded_cell_text, encoded_char, inside_leaf, is_join,
    kept_text, lemma_join_found, lemma_join_wf, node_removals, paragraph_join, range_removals,
    removable, replaced, seam_removals, through_insertion, whole_leaf, HtmlParagraphJoin,
};
use crate::document::tabular_text::with_line_feeds;
use crate::edit::{edit_precedes, law_sorted_edits, EditView};
use crate::grid::SourceSpan;
use crate::html::{span_wf, HtmlModel, HtmlNode, HtmlNodeKind};
use crate::text::{byte_len, lemma_encode_concat, lemma_span_bytes, sliceable, span};
use vstd::prelude::*;
use vstd::utf8::*;

verus! {

/// Whether a text starts with another.
pub open spec fn begins(source: Seq<char>, start: Seq<char>) -> bool {
    source.len() >= start.len() && source.take(start.len() as int) == start
}

/// How many characters the first character that the content of a cell shows is written with.
pub open spec fn markup_len(source: Seq<char>) -> int {
    if begins(source, "&amp;"@) {
        5
    } else if begins(source, "&lt;"@) || begins(source, "&gt;"@) || begins(source, "<br>"@) {
        4
    } else {
        1
    }
}

/// The first character that the content of a cell shows.
pub open spec fn markup_shows(source: Seq<char>) -> char {
    if begins(source, "&amp;"@) {
        '&'
    } else if begins(source, "&lt;"@) {
        '<'
    } else if begins(source, "&gt;"@) {
        '>'
    } else if begins(source, "<br>"@) {
        '\n'
    } else {
        source[0]
    }
}

/// What the content of a cell shows: the named characters and line breaks stand for what they
/// name, and every other character for itself.
pub open spec fn cell_shows(source: Seq<char>) -> Seq<char>
    decreases source.len(),
{
    if source.len() == 0 {
        Seq::empty()
    } else if markup_len(source) <= source.len() {
        seq![markup_shows(source)] + cell_shows(source.skip(markup_len(source)))
    } else {
        source
    }
}

/// Whether the content of a cell has no markup but line breaks: no angle bracket and no
/// ampersand stands for itself.
pub open spec fn cell_is_plain(source: Seq<char>) -> bool
    decreases source.len(),
{
    if source.len() == 0 {
        true
    } else if markup_len(source) <= source.len() {
        (markup_len(source) == 1 ==> source[0] != '&' && source[0] != '<' && source[0] != '>')
            && cell_is_plain(source.skip(markup_len(source)))
    } else {
        false
    }
}

proof fn lemma_begins(start: Seq<char>, tail: Seq<char>)
    ensures
        begins(start + tail, start),
        (start + tail).skip(start.len() as int) == tail,
{
    assert((start + tail).take(start.len() as int) =~= start);
    assert((start + tail).skip(start.len() as int) =~= tail);
}

proof fn lemma_not_begins(source: Seq<char>, start: Seq<char>, k: int)
    requires
        0 <= k < start.len(),
        k < source.len() ==> source[k] != start[k],
    ensures
        !begins(source, start),
{
    if begins(source, start) {
        assert(source.take(start.len() as int)[k] == source[k]);
    }
}

proof fn lemma_shown_piece(c: char, tail: Seq<char>)
    ensures
        ({
            let source = encoded_char(c) + tail;
            &&& markup_len(source) == encoded_char(c).len()
            &&& markup_shows(source) == if c == '\r' {
                '\n'
            } else {
                c
            }
            &&& source.skip(markup_len(source)) == tail
            &&& markup_len(source) == 1 ==> source[0] != '&' && source[0] != '<' && source[0]
                != '>'
            &&& source.len() >= markup_len(source)
        }),
{
    reveal_strlit("&amp;");
    reveal_strlit("&lt;");
    reveal_strlit("&gt;");
    reveal_strlit("<br>");
    let source = encoded_char(c) + tail;
    lemma_begins(encoded_char(c), tail);
    assert(source[0] == encoded_char(c)[0]);
    if c == '&' {
    } else if c == '<' {
        assert(source[1] == 'l');
        lemma_not_begins(source, "&amp;"@, 1);
    } else if c == '>' {
        assert(source[1] == 'g');
        lemma_not_begins(source, "&amp;"@, 1);
        lemma_not_begins(source, "&lt;"@, 1);
    } else {
        lemma_not_begins(source, "&amp;"@, 0);
        lemma_not_begins(source, "&lt;"@, 0);
        lemma_not_begins(source, "&gt;"@, 0);
        if c != '\r' && c != '\n' {
            lemma_not_begins(source, "<br>"@, 0);
        }
    }
}

/// Text that is typed or pasted into a cell of an HTML table shows as it was, with a line feed
/// for each of its line breaks, and brings no markup but line breaks.
pub proof fn law_typed_text_shows_as_it_was(text: Seq<char>)
    ensures
        cell_shows(encoded_cell_text(text)) == with_line_feeds(text),
        cell_is_plain(encoded_cell_text(text)),
    decreases text.len(),
{
    let source = encoded_cell_text(text);
    if text.len() > 0 {
        if text[0] == '\r' && text.len() > 1 && text[1] == '\n' {
            let tail = encoded_cell_text(text.skip(2));
            law_typed_text_shows_as_it_was(text.skip(2));
            lemma_shown_piece('\n', tail);
            assert(source == encoded_char('\n') + tail);
        } else {
            let rest = text.drop_first();
            let tail = encoded_cell_text(rest);
            law_typed_text_shows_as_it_was(rest);
            lemma_shown_piece(text[0], tail);
            assert(text.skip(1) =~= rest);
        }
    }
}

/// Whether `leaf` is the source of a formula or a footnote that lies inside a range.
pub open spec fn is_leaf(model: HtmlModel, range: SourceSpan, leaf: SourceSpan) -> bool {
    &&& range.start <= leaf.start && leaf.end <= range.end
    &&& (exists|k: int| 0 <= k < model.math@.len() && (#[trigger] model.math@[k]).source == leaf)
        || (exists|k: int|
        0 <= k < model.footnotes@.len() && #[trigger] model.footnotes@[k] == leaf)
}

/// Whether deleting a range takes what it holds of a node away: text, a line break, an image
/// that lies in it, and a formula or footnote that lies in it as a whole, but not its parts.
pub open spec fn goes_away(model: HtmlModel, range: SourceSpan, node: HtmlNode) -> bool {
    &&& forall|leaf: SourceSpan| #[trigger]
        is_leaf(model, range, leaf) ==> leaf == node.source || !(leaf.start <= node.source.start
            && node.source.end <= leaf.end)
    &&& match node.kind {
        HtmlNodeKind::Text => true,
        HtmlNodeKind::Comment => false,
        HtmlNodeKind::Element { opening, .. } => is_leaf(model, range, node.source)
            || opening.name@ == "br"@ || (opening.name@ == "img"@ && range.start
            <= node.source.start && node.source.end <= range.end),
    }
}

/// Whether the tags at a seam of two paragraphs go away: the range is the seam, nothing comes
/// in its place, and both paragraphs are of one kind.
pub open spec fn seam_goes_away(
    model: HtmlModel,
    range: SourceSpan,
    inserted: Seq<char>,
    join: HtmlParagraphJoin,
) -> bool {
    &&& is_join(model, range, Some(join))
    &&& inserted.len() == 0
    &&& join.same_tag
    &&& range.start == join.closing.start
    &&& range.end == join.opening.end
}

/// Whether byte `at` of a range goes away when `inserted` is put in place of the range.
pub open spec fn byte_goes_away(
    model: HtmlModel,
    range: SourceSpan,
    inserted: Seq<char>,
    at: int,
) -> bool {
    ||| exists|n: int|
        0 <= n < model.nodes@.len() && goes_away(model, range, #[trigger] model.nodes@[n])
            && model.nodes@[n].source.start <= at < model.nodes@[n].source.end
    ||| exists|join: HtmlParagraphJoin| #[trigger]
        seam_goes_away(model, range, inserted, join) && (join.closing.start <= at
            < join.closing.end || join.opening.start <= at < join.opening.end)
}

/// The bytes from `from` up to `end` that do not go away.
pub open spec fn bytes_that_stay(
    bytes: Seq<u8>,
    model: HtmlModel,
    range: SourceSpan,
    inserted: Seq<char>,
    from: int,
    end: int,
) -> Seq<u8>
    decreases end - from,
{
    if from >= end {
        Seq::empty()
    } else {
        (if byte_goes_away(model, range, inserted, from) {
            Seq::empty()
        } else {
            seq![bytes[from]]
        }) + bytes_that_stay(bytes, model, range, inserted, from + 1, end)
    }
}

spec fn covered(removed: Seq<EditView>, at: int) -> bool {
    exists|i: int| 0 <= i < removed.len() && (#[trigger] removed[i]).start <= at < removed[i].end
}

proof fn lemma_leaf(model: HtmlModel, range: SourceSpan, leaf: SourceSpan)
    ensures
        whole_leaf(model, range, leaf) <==> is_leaf(model, range, leaf),
{
    if whole_leaf(model, range, leaf) && model.footnotes@.contains(leaf) {
        let k = choose|k: int| 0 <= k < model.footnotes@.len() && model.footnotes@[k] == leaf;
        assert(model.footnotes@[k] == leaf);
    }
    if is_leaf(model, range, leaf) && exists|k: int|
        0 <= k < model.footnotes@.len() && #[trigger] model.footnotes@[k] == leaf {
        let k = choose|k: int|
            0 <= k < model.footnotes@.len() && #[trigger] model.footnotes@[k] == leaf;
        assert(model.footnotes@.contains(leaf));
    }
}

proof fn lemma_removable(model: HtmlModel, range: SourceSpan, node: HtmlNode)
    ensures
        removable(model, range, node) <==> goes_away(model, range, node),
{
    lemma_leaf(model, range, node.source);
    if inside_leaf(model, range, node) {
        let leaf = choose|leaf: SourceSpan| #[trigger]
            whole_leaf(model, range, leaf) && leaf != node.source && crate::html::span_in(
                leaf,
                node.source,
            );
        lemma_leaf(model, range, leaf);
        assert(is_leaf(model, range, leaf));
    } else {
        assert forall|leaf: SourceSpan| #[trigger] is_leaf(model, range, leaf) implies leaf
            == node.source || !(leaf.start <= node.source.start && node.source.end
            <= leaf.end) by {
            lemma_leaf(model, range, leaf);
            assert(whole_leaf(model, range, leaf));
        }
    }
}

proof fn lemma_node_removals(model: HtmlModel, range: SourceSpan, count: int, at: int)
    requires
        0 <= count <= model.nodes@.len(),
        range.start <= at < range.end,
    ensures
        covered(node_removals(model, range, count), at) <==> exists|n: int|
            0 <= n < count && goes_away(model, range, #[trigger] model.nodes@[n])
                && model.nodes@[n].source.start <= at < model.nodes@[n].source.end,
        forall|i: int|
            0 <= i < node_removals(model, range, count).len() ==> (#[trigger] node_removals(
                model,
                range,
                count,
            )[i]).text.len() == 0,
    decreases count,
{
    if count > 0 {
        lemma_node_removals(model, range, count - 1, at);
        let before = node_removals(model, range, count - 1);
        let all = node_removals(model, range, count);
        let node = model.nodes@[count - 1];
        let (start, end) = clipped(range, node.source);
        lemma_removable(model, range, node);
        if covered(before, at) {
            let i = choose|i: int|
                0 <= i < before.len() && (#[trigger] before[i]).start <= at < before[i].end;
            assert(all[i] == before[i]);
        }
        if goes_away(model, range, node) && node.source.start <= at < node.source.end {
            assert(start < end);
            assert(all.last().start <= at < all.last().end);
            assert(all[all.len() - 1] == all.last());
        }
        if covered(all, at) {
            let i = choose|i: int|
                0 <= i < all.len() && (#[trigger] all[i]).start <= at < all[i].end;
            if i < before.len() {
                assert(all[i] == before[i]);
                assert(covered(before, at));
            } else {
                assert(goes_away(model, range, model.nodes@[count - 1]));
            }
        }
    }
}

/// What goes away of a range, by its bytes.
proof fn lemma_removals(
    text: Seq<char>,
    model: HtmlModel,
    range: SourceSpan,
    inserted: Seq<char>,
    at: int,
)
    requires
        model.wf(text),
        range.start <= at < range.end,
    ensures
        ({
            let removed = range_removals(model, range, inserted, Seq::empty(), false);
            &&& covered(removed, at) <==> byte_goes_away(model, range, inserted, at)
            &&& forall|i: int| 0 <= i < removed.len() ==> (#[trigger] removed[i]).text.len() == 0
        }),
{
    let count = model.nodes@.len() as int;
    let nodes = node_removals(model, range, count);
    let found = paragraph_join(model, range);
    let seam = seam_removals(range, inserted, found, false);
    let none = Seq::<EditView>::empty();
    assert(closings_inside(range, none, 0) =~= none);
    let all = nodes + seam + closings_inside(range, none, none.len() as int);
    assert(all =~= nodes + seam);
    let removed = range_removals(model, range, inserted, none, false);
    law_sorted_edits(all);
    lemma_node_removals(model, range, count, at);
    lemma_join_found(model, range);
    assert forall|i: int| 0 <= i < removed.len() implies (#[trigger] removed[i]).text.len() == 0 by {
        assert(removed.contains(removed[i]));
        let k = choose|k: int| 0 <= k < all.len() && all[k] == removed[i];
        if k < nodes.len() {
            assert(all[k] == nodes[k]);
        } else {
            assert(all[k] == seam[k - nodes.len()]);
        }
    }
    if covered(removed, at) {
        let i = choose|i: int|
            0 <= i < removed.len() && (#[trigger] removed[i]).start <= at < removed[i].end;
        assert(removed.contains(removed[i]));
        let k = choose|k: int| 0 <= k < all.len() && all[k] == removed[i];
        if k < nodes.len() {
            assert(all[k] == nodes[k]);
            assert(covered(nodes, at));
        } else {
            assert(all[k] == seam[k - nodes.len()]);
            assert(seam_goes_away(model, range, inserted, found->Some_0));
        }
    }
    if byte_goes_away(model, range, inserted, at) {
        if covered(nodes, at) {
            let i = choose|i: int|
                0 <= i < nodes.len() && (#[trigger] nodes[i]).start <= at < nodes[i].end;
            assert(all[i] == nodes[i]);
            assert(all.contains(nodes[i]));
            assert(removed.contains(nodes[i]));
            let k = choose|k: int| 0 <= k < removed.len() && removed[k] == nodes[i];
            assert(removed[k].start <= at < removed[k].end);
        } else {
            let join = choose|join: HtmlParagraphJoin| #[trigger]
                seam_goes_away(model, range, inserted, join) && (join.closing.start <= at
                    < join.closing.end || join.opening.start <= at < join.opening.end);
            crate::document::html_cell_text::lemma_join_unique(model, range, Some(join), found);
            lemma_join_wf(text, model, range, join);
            assert(covers_seam(join, range));
            assert(seam.len() == 2);
            let pick = if join.closing.start <= at < join.closing.end {
                0int
            } else {
                1int
            };
            assert(all[nodes.len() + pick] == seam[pick]);
            assert(all.contains(seam[pick]));
            assert(removed.contains(seam[pick]));
            let k = choose|k: int| 0 <= k < removed.len() && removed[k] == seam[pick];
            assert(removed[k].start <= at < removed[k].end);
        }
    }
}

spec fn uncovered(bytes: Seq<u8>, removed: Seq<EditView>, from: int, end: int) -> Seq<u8>
    decreases end - from,
{
    if from >= end {
        Seq::empty()
    } else {
        (if covered(removed, from) {
            Seq::empty()
        } else {
            seq![bytes[from]]
        }) + uncovered(bytes, removed, from + 1, end)
    }
}

proof fn lemma_uncovered_split(
    bytes: Seq<u8>,
    removed: Seq<EditView>,
    from: int,
    middle: int,
    end: int,
)
    requires
        from <= middle <= end,
    ensures
        uncovered(bytes, removed, from, end) == uncovered(bytes, removed, from, middle)
            + uncovered(bytes, removed, middle, end),
    decreases middle - from,
{
    if from < middle {
        lemma_uncovered_split(bytes, removed, from + 1, middle, end);
        assert(uncovered(bytes, removed, from, end) =~= uncovered(bytes, removed, from, middle)
            + uncovered(bytes, removed, middle, end));
    } else {
        assert(uncovered(bytes, removed, from, middle) =~= Seq::empty());
        assert(Seq::<u8>::empty() + uncovered(bytes, removed, middle, end) =~= uncovered(
            bytes,
            removed,
            middle,
            end,
        ));
    }
}

proof fn lemma_all_stay(bytes: Seq<u8>, removed: Seq<EditView>, from: int, end: int)
    requires
        0 <= from <= end <= bytes.len(),
        forall|at: int| from <= at < end ==> !#[trigger] covered(removed, at),
    ensures
        uncovered(bytes, removed, from, end) == bytes.subrange(from, end),
    decreases end - from,
{
    if from < end {
        lemma_all_stay(bytes, removed, from + 1, end);
        assert(!covered(removed, from));
        assert(seq![bytes[from]] + bytes.subrange(from + 1, end) =~= bytes.subrange(from, end));
    } else {
        assert(bytes.subrange(from, end) =~= Seq::empty());
    }
}

proof fn lemma_none_stay(bytes: Seq<u8>, removed: Seq<EditView>, from: int, end: int)
    requires
        forall|at: int| from <= at < end ==> #[trigger] covered(removed, at),
    ensures
        uncovered(bytes, removed, from, end) == Seq::<u8>::empty(),
    decreases end - from,
{
    if from < end {
        lemma_none_stay(bytes, removed, from + 1, end);
        assert(covered(removed, from));
        assert(uncovered(bytes, removed, from, end) =~= Seq::empty());
    }
}

proof fn lemma_same_cover(
    bytes: Seq<u8>,
    removed: Seq<EditView>,
    others: Seq<EditView>,
    from: int,
    end: int,
)
    requires
        forall|at: int|
            from <= at < end ==> (#[trigger] covered(removed, at) <==> covered(others, at)),
    ensures
        uncovered(bytes, removed, from, end) == uncovered(bytes, others, from, end),
    decreases end - from,
{
    if from < end {
        assert(covered(removed, from) <==> covered(others, from));
        lemma_same_cover(bytes, removed, others, from + 1, end);
    }
}

/// What is kept of a range are the bytes that no removal covers, with the inserted text before
/// the first of the removed ones.
proof fn lemma_kept_bytes(
    text: Seq<char>,
    cursor: int,
    end: int,
    inserted: Seq<char>,
    removed: Seq<EditView>,
)
    requires
        sliceable(text, cursor, end),
        forall|i: int|
            0 <= i < removed.len() ==> sliceable(text, (#[trigger] removed[i]).start, removed[i].end)
                && removed[i].end <= end && removed[i].text.len() == 0,
        forall|i: int, j: int|
            #![trigger removed[i], removed[j]]
            0 <= i < j < removed.len() ==> edit_precedes(removed[i], removed[j]),
    ensures
        ({
            let bytes = encode_utf8(text);
            let cut = if removed.len() > 0 && removed[0].start > cursor {
                removed[0].start
            } else {
                cursor
            };
            encode_utf8(kept_text(text, cursor, end, inserted, removed)) == bytes.subrange(
                cursor,
                cut,
            ) + encode_utf8(inserted) + uncovered(bytes, removed, cut, end)
        }),
    decreases removed.len(),
{
    let bytes = encode_utf8(text);
    crate::text::lemma_boundary_bounds(text, cursor);
    crate::text::lemma_boundary_bounds(text, end);
    let none = Seq::<char>::empty();
    assert(encode_utf8(none) =~= Seq::<u8>::empty());
    if removed.len() == 0 {
        lemma_span_bytes(text, cursor, end);
        lemma_encode_concat(inserted, span(text, cursor, end));
        lemma_all_stay(bytes, removed, cursor, end);
        assert(bytes.subrange(cursor, cursor) =~= Seq::empty());
        assert(encode_utf8(kept_text(text, cursor, end, inserted, removed)) =~= bytes.subrange(
            cursor,
            cursor,
        ) + encode_utf8(inserted) + uncovered(bytes, removed, cursor, end));
    } else {
        let first = removed[0];
        let tail = removed.drop_first();
        let cut = if first.start > cursor {
            first.start
        } else {
            cursor
        };
        let next = if first.end > cursor {
            first.end
        } else {
            cursor
        };
        let head = if first.start > cursor {
            span(text, cursor, first.start)
        } else {
            none
        };
        if first.start > cursor {
            lemma_span_bytes(text, cursor, first.start);
        } else {
            assert(bytes.subrange(cursor, cut) =~= Seq::empty());
        }
        assert forall|i: int| 0 <= i < tail.len() implies sliceable(
            text,
            (#[trigger] tail[i]).start,
            tail[i].end,
        ) && tail[i].end <= end && tail[i].text.len() == 0 && first.start <= tail[i].start by {
            assert(tail[i] == removed[i + 1]);
            assert(edit_precedes(removed[0], removed[i + 1]));
        }
        assert forall|i: int, j: int|
            #![trigger tail[i], tail[j]]
            0 <= i < j < tail.len() implies edit_precedes(tail[i], tail[j]) by {
            assert(tail[i] == removed[i + 1] && tail[j] == removed[j + 1]);
        }
        lemma_kept_bytes(text, next, end, none, tail);
        let after = if tail.len() > 0 && tail[0].start > next {
            tail[0].start
        } else {
            next
        };
        let rest = kept_text(text, next, end, none, tail);
        // Behind the first removal the others alone cover anything.
        assert forall|at: int| next <= at < end implies (#[trigger] covered(removed, at)
            <==> covered(tail, at)) by {
            if covered(removed, at) {
                let i = choose|i: int|
                    0 <= i < removed.len() && (#[trigger] removed[i]).start <= at
                        < removed[i].end;
                assert(i > 0);
                assert(tail[i - 1] == removed[i]);
            }
            if covered(tail, at) {
                let i = choose|i: int|
                    0 <= i < tail.len() && (#[trigger] tail[i]).start <= at < tail[i].end;
                assert(removed[i + 1] == tail[i]);
            }
        }
        lemma_same_cover(bytes, removed, tail, next, end);
        // Up to the next removal nothing is covered.
        assert forall|at: int| next <= at < after implies !#[trigger] covered(tail, at) by {
            if covered(tail, at) {
                let i = choose|i: int|
                    0 <= i < tail.len() && (#[trigger] tail[i]).start <= at < tail[i].end;
                if i > 0 {
                    assert(edit_precedes(tail[0], tail[i]));
                }
            }
        }
        if after > next {
            crate::text::lemma_boundary_bounds(text, tail[0].end);
            assert(tail[0].start <= tail[0].end);
        }
        lemma_all_stay(bytes, tail, next, after);
        lemma_uncovered_split(bytes, tail, next, after, end);
        assert(encode_utf8(rest) =~= uncovered(bytes, tail, next, end));
        // What the first removal covers goes away.
        assert forall|at: int| cut <= at < next implies #[trigger] covered(removed, at) by {
            assert(removed[0].start <= at < removed[0].end);
        }
        lemma_none_stay(bytes, removed, cut, next);
        lemma_uncovered_split(bytes, removed, cut, next, end);
        assert(uncovered(bytes, removed, cut, end) =~= uncovered(bytes, tail, next, end));
        assert(first.text =~= none);
        lemma_encode_concat(head, inserted);
        lemma_encode_concat(head + inserted, first.text);
        lemma_encode_concat(head + inserted + first.text, rest);
        assert(kept_text(text, cursor, end, inserted, removed) == head + inserted + first.text
            + rest);
        assert(encode_utf8(kept_text(text, cursor, end, inserted, removed)) =~= bytes.subrange(
            cursor,
            cut,
        ) + encode_utf8(inserted) + uncovered(bytes, removed, cut, end));
    }
}

proof fn lemma_stay(
    bytes: Seq<u8>,
    model: HtmlModel,
    range: SourceSpan,
    inserted: Seq<char>,
    removed: Seq<EditView>,
    from: int,
    end: int,
)
    requires
        forall|at: int|
            from <= at < end ==> (#[trigger] covered(removed, at) <==> byte_goes_away(
                model,
                range,
                inserted,
                at,
            )),
    ensures
        bytes_that_stay(bytes, model, range, inserted, from, end) == uncovered(
            bytes,
            removed,
            from,
            end,
        ),
    decreases end - from,
{
    if from < end {
        assert(covered(removed, from) <==> byte_goes_away(model, range, inserted, from));
        lemma_stay(bytes, model, range, inserted, removed, from + 1, end);
    }
}

/// Text that is put in place of a range of a cell replaces what the range shows and nothing
/// else: tags and comments of the range stay, in their order. The new text comes where the
/// first of what goes away stood, or first of all where nothing goes away, and `input_end` is
/// where it ends.
pub proof fn law_replaced_text_keeps_the_tags(
    text: Seq<char>,
    model: HtmlModel,
    range: SourceSpan,
    inserted: Seq<char>,
    made: Seq<char>,
    input_end: int,
)
    requires
        model.wf(text),
        span_wf(text, range),
        replaced(text, model, range, inserted, Seq::empty(), false, made, input_end),
    ensures
        exists|cut: int|
            {
                &&& range.start <= cut <= range.end
                &&& forall|at: int|
                    range.start <= at < cut ==> !#[trigger] byte_goes_away(
                        model,
                        range,
                        inserted,
                        at,
                    )
                &&& cut == range.start || byte_goes_away(model, range, inserted, cut)
                &&& encode_utf8(made) == encode_utf8(text).subrange(range.start as int, cut)
                    + encode_utf8(inserted) + #[trigger] bytes_that_stay(
                    encode_utf8(text),
                    model,
                    range,
                    inserted,
                    cut,
                    range.end as int,
                )
                &&& input_end == cut - range.start + byte_len(inserted)
            },
{
    let bytes = encode_utf8(text);
    let start = range.start as int;
    let end = range.end as int;
    let removed = range_removals(model, range, inserted, Seq::empty(), false);
    lemma_removed_inside(text, model, range, inserted);
    crate::text::lemma_boundary_bounds(text, start);
    crate::text::lemma_boundary_bounds(text, end);
    assert forall|at: int| start <= at < end implies (#[trigger] covered(removed, at)
        <==> byte_goes_away(model, range, inserted, at)) by {
        lemma_removals(text, model, range, inserted, at);
    }
    if start < end {
        lemma_removals(text, model, range, inserted, start);
    } else {
        assert(removed.len() == 0 || removed[0].start == removed[0].end);
    }
    lemma_kept_bytes(text, start, end, inserted, removed);
    let cut = if removed.len() > 0 && removed[0].start > start {
        removed[0].start
    } else {
        start
    };
    assert forall|at: int| start <= at < cut implies !#[trigger] byte_goes_away(
        model,
        range,
        inserted,
        at,
    ) by {
        if covered(removed, at) {
            let i = choose|i: int|
                0 <= i < removed.len() && (#[trigger] removed[i]).start <= at < removed[i].end;
            if i > 0 {
                assert(edit_precedes(removed[0], removed[i]));
            }
        }
        assert(covered(removed, at) <==> byte_goes_away(model, range, inserted, at));
    }
    if cut > start {
        assert(removed[0].start < removed[0].end);
        assert(covered(removed, cut));
        lemma_span_bytes(text, start, cut);
        lemma_encode_concat(span(text, start, cut), inserted);
    }
    lemma_stay(bytes, model, range, inserted, removed, cut, end);
    assert(through_insertion(text, start, inserted, removed) == if cut > start {
        span(text, start, cut) + inserted
    } else {
        inserted
    });
}

/// All that goes away lies in the range, is not empty, and stands in order.
proof fn lemma_removed_inside(
    text: Seq<char>,
    model: HtmlModel,
    range: SourceSpan,
    inserted: Seq<char>,
)
    requires
        model.wf(text),
        span_wf(text, range),
    ensures
        ({
            let removed = range_removals(model, range, inserted, Seq::empty(), false);
            &&& forall|i: int|
                0 <= i < removed.len() ==> sliceable(
                    text,
                    (#[trigger] removed[i]).start,
                    removed[i].end,
                ) && range.start <= removed[i].start < removed[i].end <= range.end
                    && removed[i].text.len() == 0
            &&& forall|i: int, j: int|
                #![trigger removed[i], removed[j]]
                0 <= i < j < removed.len() ==> edit_precedes(removed[i], removed[j])
        }),
{
    let count = model.nodes@.len() as int;
    let nodes = node_removals(model, range, count);
    let found = paragraph_join(model, range);
    let seam = seam_removals(range, inserted, found, false);
    let none = Seq::<EditView>::empty();
    assert(closings_inside(range, none, 0) =~= none);
    let all = nodes + seam + closings_inside(range, none, none.len() as int);
    assert(all =~= nodes + seam);
    let removed = range_removals(model, range, inserted, none, false);
    law_sorted_edits(all);
    lemma_nodes_inside(text, model, range, count);
    lemma_join_found(model, range);
    if seam.len() > 0 {
        lemma_join_wf(text, model, range, found->Some_0);
    }
    assert forall|i: int| 0 <= i < removed.len() implies sliceable(
        text,
        (#[trigger] removed[i]).start,
        removed[i].end,
    ) && range.start <= removed[i].start < removed[i].end <= range.end && removed[i].text.len()
        == 0 by {
        assert(removed.contains(removed[i]));
        let k = choose|k: int| 0 <= k < all.len() && all[k] == removed[i];
        if k < nodes.len() {
            assert(all[k] == nodes[k]);
        } else {
            assert(all[k] == seam[k - nodes.len()]);
        }
    }
}

proof fn lemma_nodes_inside(text: Seq<char>, model: HtmlModel, range: SourceSpan, count: int)
    requires
        model.wf(text),
        span_wf(text, range),
        0 <= count <= model.nodes@.len(),
    ensures
        forall|i: int|
            0 <= i < node_removals(model, range, count).len() ==> ({
                let edit = #[trigger] node_removals(model, range, count)[i];
                sliceable(text, edit.start, edit.end) && range.start <= edit.start < edit.end
                    <= range.end && edit.text.len() == 0
            }),
    decreases count,
{
    if count > 0 {
        lemma_nodes_inside(text, model, range, count - 1);
        let before = node_removals(model, range, count - 1);
        let all = node_removals(model, range, count);
        assert(model.nodes@[count - 1].wf(text));
        assert forall|i: int| 0 <= i < all.len() implies ({
            let edit = #[trigger] all[i];
            sliceable(text, edit.start, edit.end) && range.start <= edit.start < edit.end
                <= range.end && edit.text.len() == 0
        }) by {
            if i < before.len() {
                assert(all[i] == before[i]);
            }
        }
    }
}

} // verus!
