//! Deleting the seams between paragraphs of HTML cells.
use crate::document::error::EditorDocumentError;
use crate::document::html_cell_text::{
    changed_closings, closing_edits, cut_by, deleted_with, deletion_edits, has_seam,
    joined_closings, law_normalized_ranges_are_ordered, normalize_ranges, normalized,
    plan_html_paragraph_boundaries, RangeContext,
};
use crate::document::html_list_selection::regions_wf;
use crate::document::list_commands::caret_at;
use crate::document::session::{changes_are, committed, unedited, EditorDocument};
use crate::edit::{
    change_of, edit_views, inverse_edits, mapped_before, ordered_edits, sorted_edits, ChangeSet,
    EditView, TextChange, TransactionError,
};
use crate::grid::SourceSpan;
use crate::history::HistoryGroup;
use crate::html::{span_wf, HtmlModel};
use crate::offset::{ByteOffset, TextRange};
use crate::selection::{CaretAffinity, EditorSelection, SelectionError, Selections};
use crate::text::{boundary, byte_len, lemma_boundary_bounds, lemma_boundary_ends, text_len};
use vstd::prelude::*;

verus! {

/// Whether every range addresses `text`.
pub open spec fn spans_wf(text: Seq<char>, ranges: Seq<SourceSpan>) -> bool {
    forall|i: int| 0 <= i < ranges.len() ==> span_wf(text, #[trigger] ranges[i])
}

/// Whether every range is in a known region, if in any.
pub open spec fn contexts_wf(regions: Seq<HtmlModel>, contexts: Seq<RangeContext>) -> bool {
    forall|i: int|
        0 <= i < contexts.len() ==> ((#[trigger] contexts[i]).region matches Some(region) ==> region
            < regions.len())
}

/// Cutting overlaps off keeps the ends of ranges between characters.
proof fn lemma_normalized_wf(text: Seq<char>, ranges: Seq<SourceSpan>)
    requires
        spans_wf(text, ranges),
    ensures
        spans_wf(text, normalized(ranges)),
    decreases ranges.len(),
{
    lemma_boundary_ends(text);
    if ranges.len() > 0 {
        let front = ranges.drop_last();
        assert forall|i: int| 0 <= i < front.len() implies span_wf(text, #[trigger] front[i]) by {
            assert(front[i] == ranges[i]);
        }
        lemma_normalized_wf(text, front);
        law_normalized_ranges_are_ordered(front);
        law_normalized_ranges_are_ordered(ranges);
        assert(span_wf(text, ranges[ranges.len() - 1]));
        let before = normalized(front);
        let all = normalized(ranges);
        if before.len() > 0 {
            assert(span_wf(text, before[before.len() - 1]));
        }
        assert forall|i: int| 0 <= i < all.len() implies span_wf(text, #[trigger] all[i]) by {
            if i < before.len() {
                assert(all[i] == before[i]);
                assert(span_wf(text, before[i]));
            }
        }
    }
}

/// The closing tags that are rewritten where paragraphs are joined.
pub open spec fn rewritten_closings(
    text: Seq<char>,
    regions: Seq<HtmlModel>,
    ranges: Seq<SourceSpan>,
    contexts: Seq<RangeContext>,
) -> Seq<EditView> {
    changed_closings(
        text,
        joined_closings(text, regions, ranges, contexts, ranges.len() as int),
    )
}

/// Whether a range cuts into a closing tag that is to be rewritten.
pub open spec fn cuts_closing(ranges: Seq<SourceSpan>, closings: Seq<EditView>) -> bool {
    exists|i: int|
        0 <= i < closings.len() && !deleted_with(ranges, #[trigger] closings[i]) && cut_by(
            ranges,
            closings[i],
        )
}

/// The edits that delete `ranges` and join the paragraphs at the seams among them.
pub open spec fn boundary_edits(
    text: Seq<char>,
    regions: Seq<HtmlModel>,
    ranges: Seq<SourceSpan>,
    contexts: Seq<RangeContext>,
) -> Seq<EditView> {
    let closings = rewritten_closings(text, regions, ranges, contexts);
    sorted_edits(
        deletion_edits(text, regions, ranges, contexts, closings, ranges.len() as int)
            + closing_edits(ranges, closings),
    )
}

/// How offsets move under edits of `text`.
pub open spec fn changes_of(text: Seq<char>, edits: Seq<EditView>) -> Seq<TextChange> {
    let back = inverse_edits(text, 0, edits, 0);
    Seq::new(
        edits.len(),
        |i: int|
            TextChange {
                old: TextRange {
                    start: ByteOffset { value: edits[i].start as u64 },
                    end: ByteOffset { value: edits[i].end as u64 },
                },
                new: TextRange {
                    start: ByteOffset { value: back[i].start as u64 },
                    end: ByteOffset { value: back[i].end as u64 },
                },
            },
    )
}

/// Where a caret at the start of range number `i` stands after the edits.
pub open spec fn start_moved(
    text: Seq<char>,
    edits: Seq<EditView>,
    ranges: Seq<SourceSpan>,
    i: int,
) -> int {
    mapped_before(changes_of(text, edits), ranges[i].start as int)
}

/// Whether `r` holds a caret for every range, at the place where it started.
pub open spec fn carets_left(
    text: Seq<char>,
    edits: Seq<EditView>,
    ranges: Seq<SourceSpan>,
    after: Seq<char>,
    primary: usize,
    r: Result<Option<Selections>, EditorDocumentError>,
) -> bool {
    if primary < ranges.len() && forall|i: int|
        0 <= i < ranges.len() ==> boundary(after, #[trigger] start_moved(text, edits, ranges, i)) {
        r matches Ok(Some(made)) && made.wf(after) && made.primary == primary && made.table is None
            && made.ranges@ == Seq::new(
            ranges.len(),
            |i: int| caret_at(start_moved(text, edits, ranges, i)),
        )
    } else {
        r == Err::<Option<Selections>, EditorDocumentError>(
            EditorDocumentError::Selection(SelectionError::InvalidRange),
        )
    }
}

/// Puts a caret where every range started.
fn carets_at_starts(
    Ghost(before): Ghost<Seq<char>>,
    Ghost(edits): Ghost<Seq<EditView>>,
    text: &str,
    changes: &ChangeSet,
    ranges: &Vec<SourceSpan>,
    primary: usize,
) -> (r: Result<Option<Selections>, EditorDocumentError>)
    requires
        changes_are(changes.changes@, before, edits),
    ensures
        carets_left(before, edits, ranges@, text@, primary, r),
{
    proof {
        assert(changes.changes@ =~= changes_of(before, edits)) by {
            assert forall|i: int| 0 <= i < edits.len() implies changes.changes@[i] == changes_of(
                before,
                edits,
            )[i] by {
                assert(change_of(
                    changes.changes@[i],
                    edits[i],
                    inverse_edits(before, 0, edits, 0)[i],
                ));
            }
        }
    }
    let mut made: Vec<EditorSelection> = Vec::new();
    let total = text_len(text);
    let mut i: usize = 0;
    while i < ranges.len()
        invariant
            i <= ranges@.len(),
            total == byte_len(text@),
            changes.changes@ == changes_of(before, edits),
            made@.len() == i,
            forall|k: int|
                0 <= k < i ==> boundary(
                    text@,
                    #[trigger] start_moved(before, edits, ranges@, k),
                ),
            forall|k: int|
                0 <= k < i ==> (#[trigger] made@[k]) == caret_at(
                    start_moved(before, edits, ranges@, k),
                ) && made@[k].wf(text@),
        decreases ranges@.len() - i,
    {
        let ghost place = start_moved(before, edits, ranges@, i as int);
        let start = ByteOffset::new(ranges[i].start as u64);
        let moved = match changes.map_before(start) {
            Some(moved) => moved,
            None => {
                proof {
                    if boundary(text@, place) {
                        lemma_boundary_bounds(text@, place);
                    }
                    assert(!boundary(text@, start_moved(before, edits, ranges@, i as int)));
                }
                return Err(EditorDocumentError::Selection(SelectionError::InvalidRange));
            },
        };
        match EditorSelection::cursor(text, moved, CaretAffinity::Downstream) {
            Ok(caret) => made.push(caret),
            Err(error) => {
                assert(!boundary(text@, start_moved(before, edits, ranges@, i as int)));
                return Err(EditorDocumentError::Selection(error));
            },
        }
        i += 1;
    }
    assert(made@ =~= Seq::new(
        ranges@.len(),
        |k: int| caret_at(start_moved(before, edits, ranges@, k)),
    ));
    match Selections::new(text, made, primary) {
        Ok(selections) => Ok(Some(selections)),
        Err(error) => Err(EditorDocumentError::Selection(error)),
    }
}

impl EditorDocument {
    /// Deletes ranges of which one is the seam between two paragraphs of a cell, as one
    /// step of its own, and returns the carets. The paragraphs are joined and take on the
    /// tags of the leftmost. `contexts` says of each range, overlaps cut off, which region
    /// it is in. `None` where no range is a seam; in source mode and for selected cells
    /// too.
    pub fn delete_html_paragraph_boundaries(
        &mut self,
        selections: &Selections,
        regions: &Vec<HtmlModel>,
        ranges: &Vec<SourceSpan>,
        contexts: &Vec<RangeContext>,
        group: HistoryGroup,
    ) -> (r: Result<Option<Selections>, EditorDocumentError>)
        requires
            old(self).buffer.revision.value < u64::MAX,
            regions_wf(old(self).buffer.text@, regions@),
            spans_wf(old(self).buffer.text@, ranges@),
            ranges@.len() == contexts@.len(),
            contexts_wf(regions@, contexts@),
        ensures
            ({
                let text = old(self).buffer.text@;
                let cut = normalized(ranges@);
                let closings = rewritten_closings(text, regions@, cut, contexts@);
                let edits = boundary_edits(text, regions@, cut, contexts@);
                if old(self).source_mode || selections.table is Some || !has_seam(
                    regions@,
                    cut,
                    contexts@,
                ) {
                    &&& r == Ok::<Option<Selections>, EditorDocumentError>(None)
                    &&& *final(self) == *old(self)
                } else if cuts_closing(cut, closings) {
                    &&& r == Err::<Option<Selections>, EditorDocumentError>(
                        EditorDocumentError::Selection(SelectionError::InvalidRange),
                    )
                    &&& *final(self) == *old(self)
                } else if ordered_edits(text, edits) {
                    &&& committed(*old(self), *final(self), edits)
                    &&& carets_left(
                        text,
                        edits,
                        cut,
                        final(self).buffer.text@,
                        selections.primary,
                        r,
                    )
                } else {
                    &&& r == Err::<Option<Selections>, EditorDocumentError>(
                        EditorDocumentError::Transaction(TransactionError::InvalidEdit),
                    )
                    &&& unedited(*old(self), *final(self))
                }
            }),
    {
        if self.source_mode || selections.table.is_some() {
            return Ok(None);
        }
        let ghost text = self.buffer.text@;
        let cut = normalize_ranges(ranges);
        proof {
            lemma_normalized_wf(text, ranges@);
            law_normalized_ranges_are_ordered(ranges@);
        }
        let planned = plan_html_paragraph_boundaries(
            self.buffer.as_str(),
            regions,
            &cut,
            contexts,
        );
        match planned {
            Ok(Some(edits)) => {
                let ghost views = edit_views(edits@);
                assert(views == boundary_edits(text, regions@, cut@, contexts@));
                match self.apply_isolated(edits, group) {
                    Ok(changes) => carets_at_starts(
                        Ghost(text),
                        Ghost(views),
                        self.buffer.as_str(),
                        &changes,
                        &cut,
                        selections.primary,
                    ),
                    Err(error) => Err(error),
                }
            },
            Ok(None) => Ok(None),
            Err(error) => Err(error),
        }
    }
}

} // verus!
