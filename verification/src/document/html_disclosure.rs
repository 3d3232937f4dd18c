//! Folding parts of a document away and showing them again.
use crate::document::error::EditorDocumentError;
use crate::document::session::{committed, replacement, unedited, EditorDocument};
use crate::document::layout_state::{presentation_dropped, LayoutState};
use crate::edit::{
    edit_views, edited, ordered_edits, splice, Edit, EditView, TransactionError,
};
use crate::history::HistoryGroup;
use crate::offset::{ByteOffset, TextRange};
use crate::selection::{EditorSelection, SelectionError, Selections};
use crate::text::{boundary, byte_len, span};
use vstd::prelude::*;

verus! {

/// A part that can be folded away.
#[derive(Clone, Copy, Debug, PartialEq, Eq, Structural)]
pub struct HtmlDisclosure {
    /// The opening tag.
    pub opening: TextRange,
    /// Whether its body is shown.
    pub open: bool,
    /// The attribute that says so, with the space before it.
    pub open_attribute: Option<TextRange>,
    /// What is always shown.
    pub summary_content: Option<TextRange>,
    pub body: TextRange,
}

/// The first of the regions that holds an offset.
pub open spec fn region_from(regions: Seq<TextRange>, at: ByteOffset, from: int) -> Option<usize>
    decreases regions.len() - from,
{
    if from < 0 || from >= regions.len() {
        None
    } else if regions[from].start.value <= at.value < regions[from].end.value {
        Some(from as usize)
    } else {
        region_from(regions, at, from + 1)
    }
}

/// The region in which a header is looked for at an offset. In source mode, and while a
/// transient text is active, there is none.
pub fn html_disclosure_region_at(
    source_mode: bool,
    composing: bool,
    regions: &[TextRange],
    at: ByteOffset,
) -> (r: Option<usize>)
    ensures
        r == (if source_mode || composing {
            None
        } else {
            region_from(regions@, at, 0)
        }),
{
    if source_mode || composing {
        return None;
    }
    let mut i: usize = 0;
    while i < regions.len()
        invariant
            i <= regions@.len(),
            !source_mode && !composing,
            region_from(regions@, at, i as int) == region_from(regions@, at, 0),
        decreases regions@.len() - i,
    {
        if regions[i].start.value <= at.value && at.value < regions[i].end.value {
            return Some(i);
        }
        i += 1;
    }
    None
}

/// What clicking a header does.
#[derive(Debug)]
pub enum DisclosureStep {
    /// Nothing.
    Nothing,
    /// Fold away what is shown without an attribute, in the view alone.
    CloseRevealed(TextRange),
    /// Put this text in place of this range of the source.
    Rewrite(TextRange, String),
}

/// Whether `step` is what clicking a header does: one that is open without an attribute
/// is folded in the view; one with the attribute loses it; one without gains it before
/// the end of its tag.
pub open spec fn step_is(
    step: DisclosureStep,
    source_mode: bool,
    disclosure: Option<HtmlDisclosure>,
) -> bool {
    match disclosure {
        Some(header) if !source_mode => if header.open && header.open_attribute is None {
            step is CloseRevealed && step->CloseRevealed_0 == header.opening
        } else {
            match header.open_attribute {
                Some(attribute) => step is Rewrite && step->Rewrite_0 == attribute
                    && step->Rewrite_1@ == Seq::<char>::empty(),
                None => {
                    let at = ByteOffset { value: (header.opening.end.value - 1) as u64 };
                    step is Rewrite && step->Rewrite_0 == (TextRange { start: at, end: at })
                        && step->Rewrite_1@ == " open"@
                },
            }
        },
        _ => step is Nothing,
    }
}

/// What clicking the header at some place does, where there is one.
pub fn disclosure_step(
    composing: bool,
    source_mode: bool,
    disclosure: Option<HtmlDisclosure>,
) -> (r: Result<DisclosureStep, EditorDocumentError>)
    requires
        disclosure matches Some(header) ==> header.opening.end.value > 0,
    ensures
        if composing {
            r == Err::<DisclosureStep, EditorDocumentError>(
                EditorDocumentError::CompositionActive,
            )
        } else {
            r is Ok && step_is(r->Ok_0, source_mode, disclosure)
        },
{
    if composing {
        return Err(EditorDocumentError::CompositionActive);
    }
    if source_mode {
        return Ok(DisclosureStep::Nothing);
    }
    let header = match disclosure {
        Some(header) => header,
        None => return Ok(DisclosureStep::Nothing),
    };
    if header.open && header.open_attribute.is_none() {
        return Ok(DisclosureStep::CloseRevealed(header.opening));
    }
    match header.open_attribute {
        Some(attribute) => Ok(DisclosureStep::Rewrite(attribute, String::new())),
        None => {
            let at = ByteOffset::new(header.opening.end.value - 1);
            Ok(DisclosureStep::Rewrite(TextRange::empty(at), " open".to_owned()))
        },
    }
}

/// Clicking a header changes its opening tag alone: the body stays as it is.
pub proof fn law_toggle_keeps_the_body(step: DisclosureStep, header: HtmlDisclosure)
    requires
        step_is(step, false, Some(header)),
        step is Rewrite,
        header.opening.start.value < header.opening.end.value,
        header.open_attribute matches Some(attribute) ==> header.opening.spec_contains_range(
            attribute,
        ),
        header.opening.end.value <= header.body.start.value,
    ensures
        step->Rewrite_0.end.value <= header.body.start.value,
        header.opening.spec_contains_range(step->Rewrite_0),
{
}

/// Whether folding hides a selection: a caret in the body or at its ends, a range that
/// shares a byte with it.
pub open spec fn folded_away(selection: EditorSelection, body: TextRange) -> bool {
    let range = selection.ordered();
    if selection.anchor == selection.focus {
        body.start.value <= range.start.value <= body.end.value
    } else {
        range.start.value < body.end.value && body.start.value < range.end.value
    }
}

/// Where hidden selections go: behind the summary, or before the whole.
pub open spec fn fold_target(disclosure: HtmlDisclosure) -> ByteOffset {
    match disclosure.summary_content {
        Some(summary) => summary.end,
        None => disclosure.opening.start,
    }
}

/// A selection once the part is folded: a caret at the target where it was hidden.
pub open spec fn relocated(
    selection: EditorSelection,
    disclosure: HtmlDisclosure,
) -> EditorSelection {
    if folded_away(selection, disclosure.body) {
        EditorSelection {
            anchor: fold_target(disclosure),
            focus: fold_target(disclosure),
            affinity: selection.affinity,
        }
    } else {
        selection
    }
}

/// Whether folding hides one of the selections.
pub open spec fn any_folded(ranges: Seq<EditorSelection>, body: TextRange) -> bool {
    exists|k: int| 0 <= k < ranges.len() && folded_away(#[trigger] ranges[k], body)
}

fn is_folded_away(selection: EditorSelection, body: TextRange) -> (r: bool)
    ensures
        r == folded_away(selection, body),
{
    let range = selection.ordered_range();
    if selection.is_empty() {
        body.start.value <= range.start.value && range.start.value <= body.end.value
    } else {
        range.start.value < body.end.value && body.start.value < range.end.value
    }
}

/// Whether `r` is what becomes of selections once a part is folded: those it hides stand
/// at the target. `None` where it hides none.
pub open spec fn relocation_is(
    text: Seq<char>,
    selections: Selections,
    disclosure: HtmlDisclosure,
    r: Result<Option<Selections>, EditorDocumentError>,
) -> bool {
    if !any_folded(selections.ranges@, disclosure.body) {
        r == Ok::<Option<Selections>, EditorDocumentError>(None)
    } else if boundary(text, fold_target(disclosure).value as int) {
        r matches Ok(Some(moved)) && moved.wf(text) && moved.primary == selections.primary
            && moved.table is None && moved.ranges@ == selections.ranges@.map_values(
            |selection: EditorSelection| relocated(selection, disclosure),
        )
    } else {
        r == Err::<Option<Selections>, EditorDocumentError>(
            EditorDocumentError::Selection(SelectionError::InvalidRange),
        )
    }
}

/// Moves selections out of a part that was folded away. `None` where none was hidden.
pub fn relocate_folded_selections(
    text: &str,
    selections: &Selections,
    disclosure: HtmlDisclosure,
) -> (r: Result<Option<Selections>, EditorDocumentError>)
    requires
        selections.wf(text@),
    ensures
        relocation_is(text@, *selections, disclosure, r),
{
    let target = match disclosure.summary_content {
        Some(summary) => summary.end,
        None => disclosure.opening.start,
    };
    let mut moved: Vec<EditorSelection> = Vec::new();
    let mut changed = false;
    let mut i: usize = 0;
    while i < selections.ranges.len()
        invariant
            i <= selections.ranges@.len(),
            selections.wf(text@),
            target == fold_target(disclosure),
            moved@.len() == i,
            changed ==> boundary(text@, target.value as int),
            changed == exists|k: int|
                0 <= k < i && folded_away(#[trigger] selections.ranges@[k], disclosure.body),
            forall|k: int|
                0 <= k < i ==> (#[trigger] moved@[k]) == relocated(
                    selections.ranges@[k],
                    disclosure,
                ) && moved@[k].wf(text@),
        decreases selections.ranges@.len() - i,
    {
        let selection = selections.ranges[i];
        assert(selections.ranges@[i as int].wf(text@));
        if is_folded_away(selection, disclosure.body) {
            assert(folded_away(selections.ranges@[i as int], disclosure.body));
            match EditorSelection::cursor(text, target, selection.affinity) {
                Ok(caret) => moved.push(caret),
                Err(error) => return Err(EditorDocumentError::Selection(error)),
            }
            changed = true;
        } else {
            moved.push(selection);
        }
        i += 1;
    }
    if !changed {
        return Ok(None);
    }
    assert(moved@ =~= selections.ranges@.map_values(
        |selection: EditorSelection| relocated(selection, disclosure),
    ));
    match Selections::new(text, moved, selections.primary) {
        Ok(made) => Ok(Some(made)),
        Err(error) => Err(EditorDocumentError::Selection(error)),
    }
}

/// What became of a click on a header.
#[derive(Debug)]
pub enum Toggled {
    /// Nothing changed.
    Unchanged,
    /// The part is folded in the view; the selections are here now where one was hidden.
    Folded(Option<Selections>),
    /// The source changed; the selections are here now.
    Edited(Selections),
}

/// What is found in the source once it was edited: the selections carried over the edit,
/// and the header that stands where the clicked one began.
#[derive(Debug)]
pub struct AfterToggle {
    pub selections: Selections,
    pub header: Option<HtmlDisclosure>,
}

/// The selections after a toggle: moved out of what it hid, else as they were carried over.
pub open spec fn after_toggle_is(
    text: Seq<char>,
    was_open: bool,
    found: AfterToggle,
    r: Result<Toggled, EditorDocumentError>,
) -> bool {
    match found.header {
        Some(closed) if was_open => exists|moved: Result<Option<Selections>, EditorDocumentError>|
            #[trigger] relocation_is(text, found.selections, closed, moved) && r == (match moved {
                Ok(Some(selections)) => Ok::<Toggled, EditorDocumentError>(
                    Toggled::Edited(selections),
                ),
                Ok(None) => Ok::<Toggled, EditorDocumentError>(Toggled::Edited(found.selections)),
                Err(error) => Err::<Toggled, EditorDocumentError>(error),
            }),
        _ => r == Ok::<Toggled, EditorDocumentError>(Toggled::Edited(found.selections)),
    }
}

/// Whether `r` is the outcome of folding in the view alone.
pub open spec fn folded_in_view<V>(
    text: Seq<char>,
    before: LayoutState<V>,
    after: LayoutState<V>,
    selections: Selections,
    header: HtmlDisclosure,
    numbers: (u64, u64),
    r: Result<Toggled, EditorDocumentError>,
) -> bool {
    exists|moved: Result<Option<Selections>, EditorDocumentError>| #[trigger]
        relocation_is(text, selections, header, moved) && match moved {
            Ok(selections) => {
                &&& r == Ok::<Toggled, EditorDocumentError>(Toggled::Folded(selections))
                &&& presentation_dropped(before, after, numbers.0, numbers.1)
            },
            Err(error) => {
                &&& r == Err::<Toggled, EditorDocumentError>(error)
                &&& after == before
            },
        }
}

/// Whether `r` is the outcome of a rewrite of the header's tag.
pub open spec fn rewritten_header<F: FnOnce(&str) -> AfterToggle>(
    before: EditorDocument,
    after: EditorDocument,
    edits: Seq<EditView>,
    header: HtmlDisclosure,
    follow: F,
    r: Result<Toggled, EditorDocumentError>,
) -> bool {
    if ordered_edits(before.buffer.text@, edits) {
        &&& committed(before, after, edits)
        &&& exists|text: &str, found: AfterToggle|
            text@ == after.buffer.text@ && #[trigger] follow.ensures((text,), found)
                && after_toggle_is(text@, header.open, found, r)
    } else {
        &&& r == Err::<Toggled, EditorDocumentError>(
            EditorDocumentError::Transaction(TransactionError::InvalidEdit),
        )
        &&& unedited(before, after)
    }
}

/// Finishes a toggle that edited the source.
fn settle_selections(text: &str, was_open: bool, found: AfterToggle) -> (r: Result<
    Toggled,
    EditorDocumentError,
>)
    requires
        found.selections.wf(text@),
    ensures
        after_toggle_is(text@, was_open, found, r),
{
    if let Some(closed) = found.header {
        if was_open {
            let moved = relocate_folded_selections(text, &found.selections, closed);
            assert(relocation_is(text@, found.selections, closed, moved));
            return match moved {
                Ok(Some(selections)) => Ok(Toggled::Edited(selections)),
                Ok(None) => Ok(Toggled::Edited(found.selections)),
                Err(error) => Err(error),
            };
        }
    }
    Ok(Toggled::Edited(found.selections))
}

impl EditorDocument {
    /// Shows hidden text again without an edit. `revealed` says whether a part around it
    /// was hidden: then everything that was laid out is dropped.
    pub fn reveal_html_range<V>(
        &self,
        state: &mut LayoutState<V>,
        revealed: bool,
        document: u64,
        generation: u64,
    ) -> (r: Result<bool, EditorDocumentError>)
        ensures
            self.composing ==> r == Err::<bool, EditorDocumentError>(
                EditorDocumentError::CompositionActive,
            ),
            !self.composing ==> r == Ok::<bool, EditorDocumentError>(revealed),
            self.composing || !revealed ==> *final(state) == *old(state),
            !self.composing && revealed ==> presentation_dropped(
                *old(state),
                *final(state),
                document,
                generation,
            ),
    {
        if self.composing {
            return Err(EditorDocumentError::CompositionActive);
        }
        if !revealed {
            return Ok(false);
        }
        state.invalidate_html_presentation(document, generation);
        Ok(true)
    }

    /// Folds or unfolds the part whose header was clicked. One that is open without an
    /// attribute is folded in the view, where `closed` says whether that changed anything;
    /// then everything laid out is dropped. Any other is rewritten in the source as one
    /// step of its own, and `follow` says what is found in the new source. Selections in a
    /// part that was folded move out of it.
    pub fn toggle_html_details<V, F: FnOnce(&str) -> AfterToggle>(
        &mut self,
        state: &mut LayoutState<V>,
        selections: &Selections,
        disclosure: Option<HtmlDisclosure>,
        closed: bool,
        follow: F,
        numbers: (u64, u64),
    ) -> (r: Result<Toggled, EditorDocumentError>)
        requires
            old(self).buffer.revision.value < u64::MAX,
            selections.wf(old(self).buffer.text@),
            disclosure matches Some(header) ==> header.opening.end.value > 0,
            forall|text: &str| #[trigger] follow.requires((text,)),
            forall|text: &str, found: AfterToggle| #[trigger]
                follow.ensures((text,), found) ==> found.selections.wf(text@),
        ensures
            ({
                let unchanged = *final(self) == *old(self) && *final(state) == *old(state);
                if old(self).composing {
                    &&& r == Err::<Toggled, EditorDocumentError>(
                        EditorDocumentError::CompositionActive,
                    )
                    &&& unchanged
                } else {
                    match disclosure {
                        Some(header) if !old(self).source_mode => {
                            if header.open && header.open_attribute is None {
                                &&& *final(self) == *old(self)
                                &&& if closed {
                                    folded_in_view(
                                        old(self).buffer.text@,
                                        *old(state),
                                        *final(state),
                                        *selections,
                                        header,
                                        numbers,
                                        r,
                                    )
                                } else {
                                    r == Ok::<Toggled, EditorDocumentError>(Toggled::Unchanged)
                                        && *final(state) == *old(state)
                                }
                            } else {
                                &&& *final(state) == *old(state)
                                &&& rewritten_header(
                                    *old(self),
                                    *final(self),
                                    toggle_edit(header),
                                    header,
                                    follow,
                                    r,
                                )
                            }
                        },
                        _ => r == Ok::<Toggled, EditorDocumentError>(Toggled::Unchanged)
                            && unchanged,
                    }
                }
            }),
    {
        let step = match disclosure_step(self.composing, self.source_mode, disclosure) {
            Ok(step) => step,
            Err(error) => return Err(error),
        };
        let header = match disclosure {
            Some(header) => header,
            None => return Ok(Toggled::Unchanged),
        };
        match step {
            DisclosureStep::Nothing => Ok(Toggled::Unchanged),
            DisclosureStep::CloseRevealed(_) => {
                if !closed {
                    return Ok(Toggled::Unchanged);
                }
                let moved = relocate_folded_selections(
                    self.buffer.as_str(),
                    selections,
                    header,
                );
                assert(relocation_is(self.buffer.text@, *selections, header, moved));
                match moved {
                    Ok(selections) => {
                        state.invalidate_html_presentation(numbers.0, numbers.1);
                        Ok(Toggled::Folded(selections))
                    },
                    Err(error) => Err(error),
                }
            },
            DisclosureStep::Rewrite(range, text) => {
                let mut edits: Vec<Edit> = Vec::new();
                edits.push(Edit::new(range, text));
                assert(edit_views(edits@) =~= toggle_edit(header));
                match self.apply_isolated(edits, HistoryGroup::External) {
                    Ok(_) => {
                        let now = self.buffer.as_str();
                        let found = follow(now);
                        assert(follow.ensures((now,), found));
                        settle_selections(now, header.open, found)
                    },
                    Err(error) => Err(error),
                }
            },
        }
    }
}

/// The edit of a click on a header that is written with an attribute or closed.
pub open spec fn toggle_edit(header: HtmlDisclosure) -> Seq<EditView> {
    match header.open_attribute {
        Some(attribute) => replacement(attribute, Seq::empty()),
        None => {
            let at = ByteOffset { value: (header.opening.end.value - 1) as u64 };
            replacement(TextRange { start: at, end: at }, " open"@)
        },
    }
}

/// A click on a header that is written without the attribute writes it at the end of the
/// opening tag, before its last character; one on a header that is written with it takes it
/// away. All other text stays.
pub proof fn law_toggle_writes_or_takes_away_the_attribute(
    text: Seq<char>,
    step: DisclosureStep,
    header: HtmlDisclosure,
)
    requires
        step_is(step, false, Some(header)),
        header.open <==> header.open_attribute is Some,
        header.opening.start.value < header.opening.end.value,
    ensures
        step is Rewrite,
        ({
            let range = step->Rewrite_0;
            let made = edited(text, replacement(range, step->Rewrite_1@));
            let end = byte_len(text);
            match header.open_attribute {
                None => made == span(text, 0, header.opening.end.value - 1) + seq![
                    ' ',
                    'o',
                    'p',
                    'e',
                    'n',
                ] + span(text, header.opening.end.value - 1, end),
                Some(attribute) => made == span(text, 0, attribute.start.value as int) + span(
                    text,
                    attribute.end.value as int,
                    end,
                ),
            }
        }),
{
    let range = step->Rewrite_0;
    let edits = replacement(range, step->Rewrite_1@);
    let end = byte_len(text);
    reveal_strlit(" open");
    assert(" open"@ =~= seq![' ', 'o', 'p', 'e', 'n']);
    assert(edits.drop_first() =~= Seq::<EditView>::empty());
    assert(edited(text, edits) == span(text, 0, range.start.value as int) + step->Rewrite_1@
        + splice(text, range.end.value as int, Seq::empty()));
    if header.open_attribute is Some {
        assert(span(text, 0, range.start.value as int) + Seq::<char>::empty() =~= span(
            text,
            0,
            range.start.value as int,
        ));
    }
}

/// A part that is open only in the view is folded there, and the source stays.
pub proof fn law_revealed_part_is_folded_in_the_view(step: DisclosureStep, header: HtmlDisclosure)
    requires
        step_is(step, false, Some(header)),
        header.open,
        header.open_attribute is None,
    ensures
        step == DisclosureStep::CloseRevealed(header.opening),
{
}

/// Folding moves a selection exactly where it has a byte of the body or is a caret in it or
/// at its ends: `at` is any byte. What is moved is a caret, behind the summary where there is
/// one and else before the whole, and a selection that stays does not change.
pub proof fn law_folded_selections_go_to_the_summary(
    selection: EditorSelection,
    header: HtmlDisclosure,
    at: int,
)
    requires
        selection.anchor.value <= at < selection.focus.value || selection.focus.value <= at
            < selection.anchor.value || at == selection.anchor.value == selection.focus.value,
        header.body.start.value <= at,
        if selection.anchor.value == selection.focus.value {
            at <= header.body.end.value
        } else {
            at < header.body.end.value
        },
    ensures
        ({
            let moved = relocated(selection, header);
            &&& moved.anchor == moved.focus
            &&& moved.affinity == selection.affinity
            &&& header.summary_content matches Some(summary) ==> moved.focus == summary.end
            &&& header.summary_content is None ==> moved.focus == header.opening.start
        }),
{
}

/// A selection that has no byte of the body, and is no caret in it, stays as it is.
pub proof fn law_other_selections_stay(selection: EditorSelection, header: HtmlDisclosure)
    requires
        selection.anchor.value != selection.focus.value ==> forall|at: int|
            !(header.body.start.value <= at < header.body.end.value && #[trigger] selects_byte(
                selection,
                at,
            )),
        selection.anchor.value == selection.focus.value ==> !(header.body.start.value
            <= selection.anchor.value <= header.body.end.value),
        header.body.start.value < header.body.end.value,
    ensures
        relocated(selection, header) == selection,
{
    if folded_away(selection, header.body) {
        let range = selection.ordered();
        let at = if range.start.value >= header.body.start.value {
            range.start.value as int
        } else {
            header.body.start.value as int
        };
        assert(selects_byte(selection, at));
    }
}

/// Whether a selection has a byte, from whichever end it was made.
pub open spec fn selects_byte(selection: EditorSelection, at: int) -> bool {
    selection.anchor.value <= at < selection.focus.value || selection.focus.value <= at
        < selection.anchor.value
}

/// The region of a place is the first that holds it.
pub proof fn law_first_region_counts(regions: Seq<TextRange>, at: ByteOffset, k: int)
    requires
        0 <= k < regions.len() <= usize::MAX,
        regions[k].start.value <= at.value < regions[k].end.value,
    ensures
        region_from(regions, at, 0) matches Some(found) && found <= k
            && regions[found as int].start.value <= at.value < regions[found as int].end.value,
{
    lemma_region_from(regions, at, k, 0);
}

proof fn lemma_region_from(regions: Seq<TextRange>, at: ByteOffset, k: int, from: int)
    requires
        0 <= from <= k < regions.len() <= usize::MAX,
        regions[k].start.value <= at.value < regions[k].end.value,
    ensures
        region_from(regions, at, from) matches Some(found) && from <= found <= k
            && regions[found as int].start.value <= at.value < regions[found as int].end.value,
    decreases k - from,
{
    if !(regions[from].start.value <= at.value < regions[from].end.value) {
        lemma_region_from(regions, at, k, from + 1);
    }
}

} // verus!
