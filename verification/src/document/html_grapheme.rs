//! Deleting one visible character inside a cell of an HTML table.
use crate::document::html_cell_text::{html_paragraph_join, paragraph_join};
use crate::grid::SourceSpan;
use crate::html::{HtmlMathSpan, HtmlModel};
use crate::offset::{ByteOffset, TextRange};
use crate::segmentation::{cluster_at, cluster_end, grapheme_at, grapheme_starts};
use crate::selection::Bias;
use crate::text::{byte_len, same_text, slice, span, text_len};
use crate::visual::{VisualOffset, VisualRange, VisualText, VisualTextError};
use vstd::prelude::*;

verus! {

/// What a deletion takes away.
#[derive(Clone, Copy, Debug, PartialEq, Eq, Structural)]
pub enum GraphemeTarget {
    /// A whole image or formula, which shows no text.
    Object(TextRange),
    /// Nothing: the caret is at the edge of the cell.
    Edge,
    /// A cluster of the visible text. `newline` is set for a lone line break.
    Cluster { visual: VisualRange, newline: bool },
}

/// Whether an object lies in the cell, on the side of the caret that is deleted,
/// with no visible text between the caret and the object.
pub open spec fn adjacent(
    visual: VisualText,
    object: TextRange,
    from: ByteOffset,
    position: int,
    forward: bool,
) -> bool {
    &&& visual.range.spec_contains_range(object)
    &&& if forward {
        from.value < object.end.value
    } else {
        from.value > object.start.value
    }
    &&& visual.source_error(object.start) is None
    &&& visual.to_visual(object.start.value as int, Bias::After) == position
}

/// Whether object `k` is the one to delete: among the adjacent ones the first
/// in source order when deleting forward, else the last.
pub open spec fn nearest_object(
    visual: VisualText,
    objects: Seq<TextRange>,
    from: ByteOffset,
    position: int,
    forward: bool,
    k: int,
) -> bool {
    &&& 0 <= k < objects.len()
    &&& adjacent(visual, objects[k], from, position, forward)
    &&& forall|m: int|
        0 <= m < objects.len() && #[trigger] adjacent(visual, objects[m], from, position, forward)
            ==> if forward {
            objects[k].start.value < objects[m].start.value || (objects[k].start.value
                == objects[m].start.value && k <= m)
        } else {
            objects[k].start.value > objects[m].start.value || (objects[k].start.value
                == objects[m].start.value && k >= m)
        }
}

fn is_adjacent(
    visual: &VisualText,
    object: TextRange,
    from: ByteOffset,
    position: u64,
    forward: bool,
) -> (r: bool)
    requires
        visual.wf(),
    ensures
        r == adjacent(*visual, object, from, position as int, forward),
{
    if !visual.range.contains_range(object) {
        return false;
    }
    let ahead = if forward {
        from.value < object.end.value
    } else {
        from.value > object.start.value
    };
    if !ahead {
        return false;
    }
    match visual.source_to_visual(object.start, Bias::After) {
        Ok(at) => at.value == position,
        Err(_) => false,
    }
}

fn find_object(
    visual: &VisualText,
    objects: &Vec<TextRange>,
    from: ByteOffset,
    position: u64,
    forward: bool,
) -> (r: Option<TextRange>)
    requires
        visual.wf(),
    ensures
        match r {
            Some(object) => exists|k: int| #[trigger]
                nearest_object(*visual, objects@, from, position as int, forward, k) && objects@[k]
                    == object,
            None => forall|m: int|
                0 <= m < objects@.len() ==> !#[trigger] adjacent(
                    *visual,
                    objects@[m],
                    from,
                    position as int,
                    forward,
                ),
        },
{
    let mut best: Option<usize> = None;
    let mut i: usize = 0;
    while i < objects.len()
        invariant
            visual.wf(),
            i <= objects@.len(),
            match best {
                Some(k) => k < i && nearest_object(
                    *visual,
                    objects@.take(i as int),
                    from,
                    position as int,
                    forward,
                    k as int,
                ),
                None => forall|m: int|
                    0 <= m < i ==> !#[trigger] adjacent(
                        *visual,
                        objects@[m],
                        from,
                        position as int,
                        forward,
                    ),
            },
        decreases objects@.len() - i,
    {
        let ghost seen = objects@.take(i as int);
        let ghost more = objects@.take(i + 1);
        let ghost old_best = best;
        assert forall|m: int| 0 <= m < i implies seen[m] == objects@[m] && more[m]
            == objects@[m] by {}
        assert(more[i as int] == objects@[i as int]);
        if is_adjacent(visual, objects[i], from, position, forward) {
            let better = match best {
                Some(k) => if forward {
                    objects[i].start.value < objects[k].start.value
                } else {
                    objects[i].start.value >= objects[k].start.value
                },
                None => true,
            };
            if better {
                best = Some(i);
            }
        }
        proof {
            if let Some(k) = best {
                assert(adjacent(*visual, more[k as int], from, position as int, forward));
                assert forall|m: int|
                    0 <= m < more.len() && #[trigger] adjacent(
                        *visual,
                        more[m],
                        from,
                        position as int,
                        forward,
                    ) implies if forward {
                    more[k as int].start.value < more[m].start.value || (
                    more[k as int].start.value == more[m].start.value && k <= m)
                } else {
                    more[k as int].start.value > more[m].start.value || (
                    more[k as int].start.value == more[m].start.value && k >= m)
                } by {
                    if m < i {
                        assert(adjacent(*visual, seen[m], from, position as int, forward));
                        assert(adjacent(*visual, objects@[m], from, position as int, forward));
                    }
                }
                assert(nearest_object(
                    *visual,
                    more,
                    from,
                    position as int,
                    forward,
                    k as int,
                ));
            }
        }
        i += 1;
    }
    assert(objects@.take(i as int) =~= objects@);
    match best {
        Some(k) => {
            assert(nearest_object(
                *visual,
                objects@,
                from,
                position as int,
                forward,
                k as int,
            ));
            Some(objects[k])
        },
        None => None,
    }
}

/// Whether `target` is what a deletion at `from` takes away from `visual`.
pub open spec fn is_target(
    visual: VisualText,
    objects: Seq<TextRange>,
    from: ByteOffset,
    forward: bool,
    target: GraphemeTarget,
) -> bool {
    let position = visual.to_visual(from.value as int, Bias::After);
    let starts = grapheme_starts(visual.text@);
    let len = byte_len(visual.text@);
    let none_adjacent = forall|m: int|
        0 <= m < objects.len() ==> !#[trigger] adjacent(
            visual,
            objects[m],
            from,
            position,
            forward,
        );
    match target {
        GraphemeTarget::Object(object) => exists|k: int| #[trigger]
            nearest_object(visual, objects, from, position, forward, k) && objects[k] == object,
        GraphemeTarget::Edge => none_adjacent && if forward {
            position >= len
        } else {
            position == 0 || len == 0
        },
        GraphemeTarget::Cluster { visual: range, newline } => {
            &&& none_adjacent
            &&& exists|i: int| #[trigger]
                cluster_at(starts, len, position, forward, i) && range.start.value == starts[i]
                    && range.end.value == cluster_end(starts, len, i)
            &&& newline == (span(
                visual.text@,
                range.start.value as int,
                range.end.value as int,
            ) == "\n"@)
        },
    }
}

/// Finds what a deletion at `from` takes away. `visual` projects the HTML cell around it,
/// and `objects` are the images and the unrevealed formulas of the cell. `None` where it is
/// in no such cell, and in source mode.
pub fn html_table_grapheme_target(
    source_mode: bool,
    visual: Option<&VisualText>,
    objects: &Vec<TextRange>,
    from: ByteOffset,
    forward: bool,
) -> (r: Result<Option<GraphemeTarget>, VisualTextError>)
    requires
        visual matches Some(cell) ==> cell.wf(),
    ensures
        match visual {
            Some(cell) if !source_mode => match r {
                Err(e) => cell.source_error(from) == Some(e),
                Ok(Some(target)) => cell.source_error(from) is None && is_target(
                    *cell,
                    objects@,
                    from,
                    forward,
                    target,
                ),
                Ok(None) => false,
            },
            _ => r == Ok::<Option<GraphemeTarget>, VisualTextError>(None),
        },
{
    if source_mode {
        return Ok(None);
    }
    match visual {
        Some(cell) => match cell_grapheme_target(cell, objects, from, forward) {
            Ok(target) => Ok(Some(target)),
            Err(error) => Err(error),
        },
        None => Ok(None),
    }
}

fn cell_grapheme_target(
    visual: &VisualText,
    objects: &Vec<TextRange>,
    from: ByteOffset,
    forward: bool,
) -> (r: Result<GraphemeTarget, VisualTextError>)
    requires
        visual.wf(),
    ensures
        match r {
            Err(e) => visual.source_error(from) == Some(e),
            Ok(target) => visual.source_error(from) is None && is_target(
                *visual,
                objects@,
                from,
                forward,
                target,
            ),
        },
{
    let at = match visual.source_to_visual(from, Bias::After) {
        Ok(at) => at,
        Err(error) => {
            return Err(error);
        },
    };
    if let Some(object) = find_object(visual, objects, from, at.value, forward) {
        return Ok(GraphemeTarget::Object(object));
    }
    let text = visual.text();
    let length = text_len(text);
    match grapheme_at(text, at.value as usize, forward) {
        None => Ok(GraphemeTarget::Edge),
        Some((start, end)) => {
            let newline = same_text(slice(text, start, end), "\n");
            Ok(
                GraphemeTarget::Cluster {
                    visual: VisualRange {
                        start: VisualOffset::new(start as u64),
                        end: VisualOffset::new(end as u64),
                    },
                    newline,
                },
            )
        },
    }
}

/// Whether the caret stands in the formula's body with something of it on the
/// side that is deleted.
pub open spec fn edits_math(math: HtmlMathSpan, from: int, forward: bool) -> bool {
    math.content.start <= from <= math.content.end && if forward {
        from < math.content.end
    } else {
        from > math.content.start
    }
}

/// `coverage` cut down to the body of the first formula that the caret edits, so
/// that the formula's own tags stay.
pub open spec fn within_math(math: Seq<HtmlMathSpan>, coverage: SourceSpan, from: int, forward: bool)
    -> SourceSpan
    decreases math.len(),
{
    if math.len() == 0 {
        coverage
    } else if edits_math(math[0], from, forward) {
        let body = math[0].content;
        let start: usize = if coverage.start < body.start {
            body.start
        } else {
            coverage.start
        };
        let end: usize = if coverage.end < body.end {
            coverage.end
        } else {
            body.end
        };
        if start <= end {
            SourceSpan { start, end }
        } else {
            coverage
        }
    } else {
        within_math(math.drop_first(), coverage, from, forward)
    }
}

/// The source range to delete for a cluster whose characters cover `coverage`.
/// A lone line break between two paragraphs stands for the seam between them.
/// `None` where that seam is out of order.
pub fn html_table_cluster_range(
    model: &HtmlModel,
    coverage: SourceSpan,
    from: usize,
    forward: bool,
    newline: bool,
) -> (r: Option<SourceSpan>)
    requires
        exists|text: Seq<char>| model.wf(text),
    ensures
        ({
            let inner = within_math(model.math@, coverage, from as int, forward);
            r == (match paragraph_join(*model, inner) {
                Some(join) if newline => if join.closing.start <= join.opening.end {
                    Some(SourceSpan { start: join.closing.start, end: join.opening.end })
                } else {
                    None
                },
                _ => Some(inner),
            })
        }),
{
    let inner = clamp_to_math(&model.math, coverage, from, forward);
    let join = html_paragraph_join(model, inner);
    if newline {
        if let Some(found) = join {
            return if found.closing.start <= found.opening.end {
                Some(SourceSpan::new(found.closing.start, found.opening.end))
            } else {
                None
            };
        }
    }
    Some(inner)
}

fn clamp_to_math(math: &Vec<HtmlMathSpan>, coverage: SourceSpan, from: usize, forward: bool) -> (r:
    SourceSpan)
    ensures
        r == within_math(math@, coverage, from as int, forward),
{
    let mut i: usize = 0;
    assert(math@.skip(0) =~= math@);
    while i < math.len()
        invariant
            i <= math@.len(),
            within_math(math@.skip(i as int), coverage, from as int, forward) == within_math(
                math@,
                coverage,
                from as int,
                forward,
            ),
        decreases math@.len() - i,
    {
        let body = math[i].content;
        assert(math@.skip(i as int)[0] == math@[i as int]);
        assert(math@.skip(i as int).drop_first() =~= math@.skip(i + 1));
        let edits = body.start <= from && from <= body.end && if forward {
            from < body.end
        } else {
            from > body.start
        };
        if edits {
            let start: usize = if coverage.start < body.start {
                body.start
            } else {
                coverage.start
            };
            let end: usize = if coverage.end < body.end {
                coverage.end
            } else {
                body.end
            };
            return if start <= end {
                SourceSpan::new(start, end)
            } else {
                coverage
            };
        }
        i += 1;
    }
    coverage
}

/// The source that a deletion takes away, once its target is known: a whole object,
/// nothing at the edge of the cell, else the cluster. `coverage` is the source of the
/// cluster's characters. `None` where the seam that a line break stands for is out of
/// order.
pub fn html_table_grapheme_deletion(
    target: GraphemeTarget,
    model: &HtmlModel,
    coverage: SourceSpan,
    from: ByteOffset,
    forward: bool,
) -> (r: Option<TextRange>)
    requires
        exists|text: Seq<char>| model.wf(text),
        from.value <= usize::MAX,
    ensures
        r == (match target {
            GraphemeTarget::Object(object) => Some(object),
            GraphemeTarget::Edge => Some(TextRange { start: from, end: from }),
            GraphemeTarget::Cluster { visual: _, newline } => {
                let inner = within_math(model.math@, coverage, from.value as int, forward);
                match paragraph_join(*model, inner) {
                    Some(join) if newline => if join.closing.start <= join.opening.end {
                        Some(
                            TextRange {
                                start: ByteOffset { value: join.closing.start as u64 },
                                end: ByteOffset { value: join.opening.end as u64 },
                            },
                        )
                    } else {
                        None
                    },
                    _ => Some(
                        TextRange {
                            start: ByteOffset { value: inner.start as u64 },
                            end: ByteOffset { value: inner.end as u64 },
                        },
                    ),
                }
            },
        }),
{
    match target {
        GraphemeTarget::Object(object) => Some(object),
        GraphemeTarget::Edge => Some(TextRange::empty(from)),
        GraphemeTarget::Cluster { visual: _, newline } => {
            match html_table_cluster_range(
                model,
                coverage,
                from.value as usize,
                forward,
                newline,
            ) {
                Some(span) => Some(
                    TextRange {
                        start: ByteOffset::new(span.start as u64),
                        end: ByteOffset::new(span.end as u64),
                    },
                ),
                None => None,
            }
        },
    }
}

/// Whether `r` is where the caret goes from `focus` when the next word boundary stands at
/// `target` of the visible text: at the edge of the cell the caret stays.
pub open spec fn moves_to_word(
    visual: VisualText,
    focus: ByteOffset,
    target: u64,
    r: Result<Option<ByteOffset>, VisualTextError>,
) -> bool {
    if target == visual.to_visual(focus.value as int, Bias::After) {
        r == Ok::<Option<ByteOffset>, VisualTextError>(Some(focus))
    } else if target <= byte_len(visual.text@) {
        r matches Ok(Some(at)) && visual.to_source(target as int, Bias::Before, at.value as int)
    } else {
        r == Err::<Option<ByteOffset>, VisualTextError>(
            VisualTextError::VisualOutOfBounds {
                offset: VisualOffset { value: target },
                len: VisualOffset { value: byte_len(visual.text@) as u64 },
            },
        )
    }
}

/// Where a word command moves the caret inside the cell that it is in, and `None` outside
/// of cells. `next` finds the word boundary from a place in the visible text. Word commands
/// do not leave the cell.
pub fn table_word_target<N: FnOnce(&str, u64) -> u64>(
    visual: Option<&VisualText>,
    focus: ByteOffset,
    next: N,
) -> (r: Result<Option<ByteOffset>, VisualTextError>)
    requires
        visual matches Some(cell) ==> cell.wf(),
        forall|text: &str, at: u64| #[trigger] next.requires((text, at)),
    ensures
        match visual {
            None => r == Ok::<Option<ByteOffset>, VisualTextError>(None),
            Some(cell) => match cell.source_error(focus) {
                Some(e) => r == Err::<Option<ByteOffset>, VisualTextError>(e),
                None => exists|text: &str, at: u64, target: u64| #[trigger]
                    next.ensures((text, at), target) && text@ == cell.text@ && at
                        == cell.to_visual(focus.value as int, Bias::After) && moves_to_word(
                        *cell,
                        focus,
                        target,
                        r,
                    ),
            },
        },
{
    let cell = match visual {
        Some(cell) => cell,
        None => {
            return Ok(None);
        },
    };
    let position = match cell.source_to_visual(focus, Bias::After) {
        Ok(at) => at,
        Err(error) => {
            return Err(error);
        },
    };
    let text = cell.text();
    let target = next(text, position.value);
    assert(next.ensures((text, position.value), target));
    if target == position.value {
        return Ok(Some(focus));
    }
    match cell.visual_to_source(VisualOffset::new(target), Bias::Before) {
        Ok(at) => Ok(Some(at)),
        Err(error) => Err(error),
    }
}

/// Inside a formula only its body is deleted: of what the deletion covers, exactly the bytes
/// that the body of the first formula around the caret holds. Outside of formulas all of
/// it. `k` is the number of that formula, and `at` any byte.
pub proof fn law_deletion_keeps_the_tags_of_a_formula(
    math: Seq<HtmlMathSpan>,
    coverage: SourceSpan,
    from: int,
    forward: bool,
    k: int,
    at: int,
)
    requires
        0 <= k <= math.len(),
        forall|m: int| 0 <= m < k ==> !edits_math(#[trigger] math[m], from, forward),
        k < math.len() ==> edits_math(math[k], from, forward),
        k < math.len() ==> coverage.start <= math[k].content.end && math[k].content.start
            <= coverage.end,
        coverage.start <= coverage.end,
    ensures
        ({
            let inner = within_math(math, coverage, from, forward);
            &&& inner.start <= at < inner.end <==> coverage.start <= at < coverage.end && (k
                < math.len() ==> math[k].content.start <= at < math[k].content.end)
            &&& k == math.len() ==> inner == coverage
        }),
    decreases math.len(),
{
    if math.len() > 0 && k > 0 {
        assert(!edits_math(math[0], from, forward));
        let rest = math.drop_first();
        assert forall|m: int| 0 <= m < k - 1 implies !edits_math(#[trigger] rest[m], from, forward) by {
            assert(rest[m] == math[m + 1]);
        }
        law_deletion_keeps_the_tags_of_a_formula(rest, coverage, from, forward, k - 1, at);
    }
}

} // verus!
