//! Commands on a document's text: each is one step that can be undone by itself.
use crate::document::error::EditorDocumentError;
use crate::document::html_cell_text::{html_table_replacement_text, replaced};
use crate::document::html_list_edit::{
    command_groups, group_edits, law_moved_selections_fit, origins_match, outcome,
    plan_html_list_command, preparable, prepare_html_list_edit, MovedSelection,
};
use crate::document::html_list_groups::ParsedGap;
use crate::document::html_list_selection::{
    group_views, has_html_list_selection, regions_wf, selects_in_list, GroupView, HtmlIndentGroup,
    ListSelection,
};
use crate::document::table_edit::TableEditPlan;
use crate::document::table_paste::TableGridPlan;
use crate::document::table_paste::{lemma_woven_gaps, lemma_woven_push, woven};
use crate::edit::{
    change_of, edit_views, edited, inverse_edits, ordered_edits, ChangeSet, Edit, EditView,
    TextBuffer, TextChange, Transaction, TransactionError,
};
use crate::grid::SourceSpan;
use crate::history::{
    law_trimming_keeps_the_newest, trailing_run, within_limit, EditorHistory, EntryView,
    HistoryGroup, HistoryView, DEFAULT_HISTORY_LIMIT,
};
use crate::html::{span_wf, HtmlModel};
use crate::offset::{ByteOffset, TextRange};
use crate::selection::{CaretAffinity, EditorSelection, SelectionError, Selections};
use crate::text::{
    boundary, byte_len, chars_of, get, is_control, same_text, sliceable, span, text_len,
};
use vstd::prelude::*;

verus! {

/// A document's text with what can be undone.
#[derive(Debug)]
pub struct EditorDocument {
    pub buffer: TextBuffer,
    pub history: EditorHistory,
    /// Whether a transient text of an input method is active.
    pub composing: bool,
    /// Whether the source is shown as it is.
    pub source_mode: bool,
}

/// Whether `after` is `before` with `edits` made, as one step of its own.
pub open spec fn committed(
    before: EditorDocument,
    after: EditorDocument,
    edits: Seq<EditView>,
) -> bool {
    let text = before.buffer.text@;
    let entry = EntryView {
        revision: after.buffer.revision,
        edits: inverse_edits(text, 0, edits, 0),
        group: before.history@.next_group,
    };
    &&& ordered_edits(text, edits)
    &&& after.buffer.text@ == edited(text, edits)
    &&& after.buffer.revision.value == before.buffer.revision.value + 1
    &&& after.history@.undo == within_limit(
        before.history@.limit as nat,
        before.history@.undo.push(entry),
    )
    &&& after.history@.redo.len() == 0
    &&& after.history@.open_group is None
    &&& after.history@.next_group == (if before.history@.next_group < u64::MAX {
        before.history@.next_group + 1
    } else {
        u64::MAX as int
    })
    &&& after.history@.limit == before.history@.limit
    &&& after.composing == before.composing
    &&& after.source_mode == before.source_mode
}

/// Whether `after` has the text and the steps of `before`.
pub open spec fn unedited(before: EditorDocument, after: EditorDocument) -> bool {
    &&& after.buffer == before.buffer
    &&& after.history@ == (HistoryView { open_group: None, ..before.history@ })
    &&& after.composing == before.composing
    &&& after.source_mode == before.source_mode
}

/// Whether `changes` say where each edit's range stood and where its text stands.
pub open spec fn changes_are(
    changes: Seq<TextChange>,
    text: Seq<char>,
    edits: Seq<EditView>,
) -> bool {
    &&& changes.len() == edits.len()
    &&& forall|i: int|
        0 <= i < edits.len() ==> change_of(
            #[trigger] changes[i],
            edits[i],
            inverse_edits(text, 0, edits, 0)[i],
        )
}

/// Whether `set` tells what `edits` changed between two states of a document.
pub open spec fn tells_changes(
    set: ChangeSet,
    before: EditorDocument,
    after: EditorDocument,
    edits: Seq<EditView>,
) -> bool {
    &&& set.before == before.buffer.revision
    &&& set.after == after.buffer.revision
    &&& changes_are(set.changes@, before.buffer.text@, edits)
}

/// The newest of a list's entries, where each of them is of a group of its own and the
/// limit leaves room for them, are not trimmed away.
proof fn lemma_newest_kept(limit: nat, entries: Seq<EntryView>, newest: int)
    requires
        0 < newest <= limit,
        newest <= entries.len(),
        forall|i: int, k: int|
            0 <= i < k < entries.len() && entries.len() - newest <= k ==> (
            #[trigger] entries[i]).group != (#[trigger] entries[k]).group,
    ensures
        within_limit(limit, entries).len() >= newest,
    decreases entries.len(),
{
    if entries.len() > limit {
        let run = crate::history::leading_run(entries, entries[0].group) as int;
        lemma_run_ends(entries, entries[0].group);
        lemma_run_holds(entries, entries[0].group);
        let rest = entries.skip(run);
        if run > entries.len() - newest {
            assert(entries[run - 1].group == entries[0].group);
        }
        assert forall|i: int, k: int| 0 <= i < k < rest.len() && rest.len() - newest <= k implies (
        #[trigger] rest[i]).group != (#[trigger] rest[k]).group by {
            assert(rest[i] == entries[i + run]);
            assert(rest[k] == entries[k + run]);
        }
        lemma_newest_kept(limit, rest, newest);
    }
}

/// A leading run is of one group.
proof fn lemma_run_holds(entries: Seq<EntryView>, group: u64)
    ensures
        forall|k: int|
            0 <= k < crate::history::leading_run(entries, group) && k < entries.len() ==> (
            #[trigger] entries[k]).group == group,
    decreases entries.len(),
{
    if entries.len() > 0 && entries[0].group == group {
        let rest = entries.drop_first();
        lemma_run_holds(rest, group);
        assert forall|k: int|
            0 <= k < crate::history::leading_run(entries, group) && k < entries.len() implies (
        #[trigger] entries[k]).group == group by {
            if k > 0 {
                assert(rest[k - 1] == entries[k]);
            }
        }
    }
}

/// A leading run stops before an entry of another group, and is not empty where the
/// first entry is of its group.
proof fn lemma_run_ends(entries: Seq<EntryView>, group: u64)
    ensures
        crate::history::leading_run(entries, group) <= entries.len(),
        entries.len() > 0 && entries[0].group == group ==> crate::history::leading_run(
            entries,
            group,
        ) > 0,
        entries.len() > 0 && entries.last().group != group ==> crate::history::leading_run(
            entries,
            group,
        ) < entries.len(),
    decreases entries.len(),
{
    if entries.len() > 0 && entries[0].group == group {
        lemma_run_ends(entries.drop_first(), group);
        if entries.len() > 1 {
            assert(entries.drop_first().last() == entries.last());
        }
    }
}

/// A command is one step of its own. Its entry is the newest, and making its edits brings
/// the text back. It is alone in its group, so undoing takes back this command and nothing
/// before it, and what can be undone then could be undone before the command. Groups stay
/// counted, so the same holds of the next command.
pub proof fn law_command_is_one_step(
    before: EditorDocument,
    after: EditorDocument,
    edits: Seq<EditView>,
)
    requires
        committed(before, after, edits),
        before.history@.limit > 0,
        before.history@.next_group < u64::MAX,
        before.history@.groups_counted(),
    ensures
        after.history@.groups_counted(),
        after.history@.undo.len() > 0,
        after.history@.undo.last().group == before.history@.next_group,
        after.history@.undo.last().revision == after.buffer.revision,
        ordered_edits(after.buffer.text@, after.history@.undo.last().edits),
        edited(after.buffer.text@, after.history@.undo.last().edits) == before.buffer.text@,
        trailing_run(after.history@.undo, after.history@.undo.last().group) == 1,
        after.history@.undo.drop_last().is_suffix_of(before.history@.undo),
{
    let entry = EntryView {
        revision: after.buffer.revision,
        edits: inverse_edits(before.buffer.text@, 0, edits, 0),
        group: before.history@.next_group,
    };
    let limit = before.history@.limit as nat;
    let all = before.history@.undo.push(entry);
    let kept = after.history@.undo;
    lemma_newest_kept(limit, all, 1);
    law_trimming_keeps_the_newest(limit, all);
    let gone = all.len() - kept.len();
    assert forall|i: int| 0 <= i < kept.len() implies (#[trigger] kept[i]).group
        < after.history@.next_group by {
        assert(kept[i] == all[gone + i]);
    }
    assert(kept.last() == all[gone + (kept.len() - 1)]);
    let rest = kept.drop_last();
    assert(rest =~= before.history@.undo.subrange(gone, before.history@.undo.len() as int));
    if rest.len() > 0 {
        assert(rest.last() == before.history@.undo[gone + (rest.len() - 1)]);
    }
    assert(trailing_run(rest, entry.group) == 0);
    crate::edit::law_inverse_restores(before.buffer.text@, edits);
}

/// A command that is refused leaves the steps as they are, and groups stay counted.
pub proof fn law_refused_command_keeps_steps(before: EditorDocument, after: EditorDocument)
    requires
        unedited(before, after),
        before.history@.groups_counted(),
    ensures
        after.history@.groups_counted(),
        after.history@.undo == before.history@.undo,
        after.history@.redo == before.history@.redo,
{
}

/// Two commands in a row are undone one at a time: the second is alone in its group, and
/// once it is taken back so is the first.
pub proof fn law_commands_are_undone_separately(
    before: EditorDocument,
    between: EditorDocument,
    after: EditorDocument,
    first: Seq<EditView>,
    second: Seq<EditView>,
)
    requires
        committed(before, between, first),
        committed(between, after, second),
        before.history@.limit > 1,
        before.history@.next_group < u64::MAX - 1,
        before.history@.groups_counted(),
    ensures
        trailing_run(after.history@.undo, after.history@.undo.last().group) == 1,
        after.history@.undo.len() > 1,
        ({
            let left = after.history@.undo.drop_last();
            &&& left.last() == between.history@.undo.last()
            &&& trailing_run(left, left.last().group) == 1
        }),
{
    law_command_is_one_step(before, between, first);
    law_command_is_one_step(between, after, second);
    let entry = EntryView {
        revision: after.buffer.revision,
        edits: inverse_edits(between.buffer.text@, 0, second, 0),
        group: between.history@.next_group,
    };
    let limit = before.history@.limit as nat;
    let earlier = between.history@.undo;
    let all = earlier.push(entry);
    let kept = after.history@.undo;
    assert forall|i: int, k: int| 0 <= i < k < all.len() && all.len() - 2 <= k implies (
    #[trigger] all[i]).group != (#[trigger] all[k]).group by {
        assert(all[i] == earlier[i]);
        if k < earlier.len() {
            assert(earlier.drop_last()[i] == earlier[i]);
            let undo = before.history@.undo;
            let older = earlier.drop_last();
            assert(older[i] == undo[undo.len() - older.len() + i]);
        }
    }
    lemma_newest_kept(limit, all, 2);
    let left = kept.drop_last();
    let gone = earlier.len() - left.len();
    assert(left.last() == earlier[gone + (left.len() - 1)]);
    let older = left.drop_last();
    if older.len() > 0 {
        assert(older.last() == left[left.len() - 2]);
        assert(left[left.len() - 2] == earlier[earlier.len() - 2]);
        let undo = before.history@.undo;
        let rest = earlier.drop_last();
        assert(rest.last() == earlier[earlier.len() - 2]);
        assert(rest.last() == undo[undo.len() - rest.len() + (rest.len() - 1)]);
    }
    assert(trailing_run(older, left.last().group) == 0);
}

impl EditorDocument {
    /// A document that was never edited.
    pub fn new(text: String) -> (r: EditorDocument)
        ensures
            r.buffer.text == text,
            r.buffer.revision.value == 0,
            r.history@.undo.len() == 0,
            r.history@.redo.len() == 0,
            r.history@.next_group == 0,
            r.history@.open_group is None,
            r.history@.limit == DEFAULT_HISTORY_LIMIT,
            r.history@.groups_counted(),
            !r.composing,
            !r.source_mode,
    {
        EditorDocument {
            buffer: TextBuffer::new(text),
            history: EditorHistory::default(),
            composing: false,
            source_mode: false,
        }
    }

    /// Makes edits as one step of its own, or refuses them all.
    pub fn apply_isolated(&mut self, edits: Vec<Edit>, group: HistoryGroup) -> (r: Result<
        ChangeSet,
        EditorDocumentError,
    >)
        requires
            old(self).buffer.revision.value < u64::MAX,
        ensures
            r is Ok <==> ordered_edits(old(self).buffer.text@, edit_views(edits@)),
            r is Ok ==> committed(*old(self), *final(self), edit_views(edits@)),
            r matches Ok(changes) ==> tells_changes(
                changes,
                *old(self),
                *final(self),
                edit_views(edits@),
            ),
            r matches Err(error) ==> error == EditorDocumentError::Transaction(
                TransactionError::InvalidEdit,
            ) && unedited(*old(self), *final(self)),
    {
        self.history.break_group();
        let transaction = Transaction::new(self.buffer.revision(), edits);
        match self.buffer.apply(&transaction) {
            Ok(applied) => {
                self.history.record(&applied, group);
                self.history.break_group();
                Ok(applied.changes)
            },
            Err(error) => Err(EditorDocumentError::Transaction(error)),
        }
    }
}

/// Whether `range` is one of the ranges.
pub open spec fn spelled(ranges: Seq<TextRange>, range: TextRange) -> bool {
    ranges.contains(range)
}

/// Whether a text has a control character.
pub open spec fn has_control(text: Seq<char>) -> bool {
    exists|k: int| 0 <= k < text.len() && crate::text::control(#[trigger] text[k])
}

fn contains_control(text: &str) -> (r: bool)
    ensures
        r == has_control(text@),
{
    let chars = chars_of(text);
    let mut i: usize = 0;
    while i < chars.len()
        invariant
            i <= chars@.len(),
            chars@ == text@,
            forall|k: int| 0 <= k < i ==> !crate::text::control(#[trigger] chars@[k]),
        decreases chars@.len() - i,
    {
        if is_control(chars[i]) {
            assert(crate::text::control(text@[i as int]));
            return true;
        }
        i += 1;
    }
    false
}

fn has_range(ranges: &[TextRange], range: TextRange) -> (r: bool)
    ensures
        r == spelled(ranges@, range),
{
    let mut i: usize = 0;
    while i < ranges.len()
        invariant
            i <= ranges@.len(),
            forall|k: int| 0 <= k < i ==> ranges@[k] != range,
        decreases ranges@.len() - i,
    {
        if ranges[i] == range {
            return true;
        }
        i += 1;
    }
    false
}

/// Whether `range` of the text reads `wanted`.
pub open spec fn reads(text: Seq<char>, range: TextRange, wanted: Seq<char>) -> bool {
    sliceable(text, range.start.value as int, range.end.value as int) && span(
        text,
        range.start.value as int,
        range.end.value as int,
    ) == wanted
}

fn range_reads(text: &str, range: TextRange, wanted: &str) -> (r: bool)
    ensures
        r == reads(text@, range, wanted@),
{
    let total = text_len(text) as u64;
    if range.start.value > total || range.end.value > total {
        proof {
            if reads(text@, range, wanted@) {
                crate::text::lemma_boundary_bounds(text@, range.start.value as int);
                crate::text::lemma_boundary_bounds(text@, range.end.value as int);
            }
        }
        return false;
    }
    match get(text, range.start.value as usize, range.end.value as usize) {
        Some(part) => same_text(part, wanted),
        None => false,
    }
}

/// One edit, as a list.
fn one_edit(range: TextRange, text: String) -> (r: Vec<Edit>)
    ensures
        edit_views(r@) == seq![
            EditView {
                start: range.start.value as int,
                end: range.end.value as int,
                text: text@,
            },
        ],
{
    let mut edits: Vec<Edit> = Vec::new();
    let edit = Edit::new(range, text);
    edits.push(edit);
    assert(edit_views(edits@) =~= seq![edit@]);
    edits
}

/// The replacement of `range` by `text`.
pub open spec fn replacement(range: TextRange, text: Seq<char>) -> Seq<EditView> {
    seq![
        EditView { start: range.start.value as int, end: range.end.value as int, text },
    ]
}

/// Why a word cannot be replaced by a suggestion.
pub open spec fn spelling_error(
    composing: bool,
    range: TextRange,
    suggestion: Seq<char>,
    words: Seq<TextRange>,
) -> Option<EditorDocumentError> {
    if composing {
        Some(EditorDocumentError::CompositionActive)
    } else if range.start == range.end || suggestion.len() == 0 || has_control(suggestion)
        || !spelled(words, range) {
        Some(EditorDocumentError::Selection(SelectionError::InvalidRange))
    } else {
        None
    }
}

impl EditorDocument {
    /// Replaces a misspelled word by a suggestion. `words` holds the ranges that may be
    /// replaced. `None` where the word already reads so.
    pub fn replace_spelling(
        &mut self,
        range: TextRange,
        suggestion: &str,
        words: &[TextRange],
    ) -> (r: Result<Option<ChangeSet>, EditorDocumentError>)
        requires
            old(self).buffer.revision.value < u64::MAX,
        ensures
            match spelling_error(old(self).composing, range, suggestion@, words@) {
                Some(error) => r == Err::<Option<ChangeSet>, EditorDocumentError>(error)
                    && *final(self) == *old(self),
                None => if reads(old(self).buffer.text@, range, suggestion@) {
                    r == Ok::<Option<ChangeSet>, EditorDocumentError>(None) && *final(self)
                        == *old(self)
                } else if ordered_edits(
                    old(self).buffer.text@,
                    replacement(range, suggestion@),
                ) {
                    &&& committed(*old(self), *final(self), replacement(range, suggestion@))
                    &&& r matches Ok(Some(changes)) && tells_changes(
                        changes,
                        *old(self),
                        *final(self),
                        replacement(range, suggestion@),
                    )
                } else {
                    &&& r == Err::<Option<ChangeSet>, EditorDocumentError>(
                        EditorDocumentError::Transaction(TransactionError::InvalidEdit),
                    )
                    &&& unedited(*old(self), *final(self))
                },
            },
    {
        if self.composing {
            return Err(EditorDocumentError::CompositionActive);
        }
        proof {
            lemma_no_bytes(suggestion@);
        }
        if range.start.value == range.end.value || text_len(suggestion) == 0 || contains_control(
            suggestion,
        ) || !has_range(words, range) {
            return Err(EditorDocumentError::Selection(SelectionError::InvalidRange));
        }
        if range_reads(self.buffer.as_str(), range, suggestion) {
            return Ok(None);
        }
        let edits = one_edit(range, suggestion.to_owned());
        match self.apply_isolated(edits, HistoryGroup::External) {
            Ok(changes) => Ok(Some(changes)),
            Err(error) => Err(error),
        }
    }

    /// Puts images, already written out, at an offset where they were dropped, and
    /// returns the caret behind them.
    pub fn insert_prepared_image_at(&mut self, offset: ByteOffset, markup: String) -> (r: Result<
        EditorSelection,
        EditorDocumentError,
    >)
        requires
            old(self).buffer.revision.value < u64::MAX,
        ensures
            ({
                let at = TextRange { start: offset, end: offset };
                let end = offset.value + byte_len(markup@);
                if end > u64::MAX {
                    &&& r == Err::<EditorSelection, EditorDocumentError>(
                        EditorDocumentError::Selection(SelectionError::InvalidRange),
                    )
                    &&& *final(self) == *old(self)
                } else if boundary(old(self).buffer.text@, offset.value as int) {
                    &&& committed(*old(self), *final(self), replacement(at, markup@))
                    &&& r == (if boundary(final(self).buffer.text@, end as int) {
                        Ok::<EditorSelection, EditorDocumentError>(
                            EditorSelection {
                                anchor: ByteOffset { value: end as u64 },
                                focus: ByteOffset { value: end as u64 },
                                affinity: CaretAffinity::Downstream,
                            },
                        )
                    } else {
                        Err::<EditorSelection, EditorDocumentError>(
                            EditorDocumentError::Selection(SelectionError::InvalidRange),
                        )
                    })
                } else {
                    &&& r == Err::<EditorSelection, EditorDocumentError>(
                        EditorDocumentError::Transaction(TransactionError::InvalidEdit),
                    )
                    &&& unedited(*old(self), *final(self))
                }
            }),
    {
        let len = text_len(markup.as_str()) as u64;
        if len > u64::MAX - offset.value {
            return Err(EditorDocumentError::Selection(SelectionError::InvalidRange));
        }
        let end = ByteOffset::new(offset.value + len);
        let edits = one_edit(TextRange::empty(offset), markup);
        let ghost views = edit_views(edits@);
        proof {
            assert(views[0].start == offset.value);
            assert(boundary(self.buffer.text@, offset.value as int) ==> ordered_edits(
                self.buffer.text@,
                views,
            ));
            assert(ordered_edits(self.buffer.text@, views) ==> sliceable(
                self.buffer.text@,
                views[0].start,
                views[0].end,
            ));
        }
        if let Err(error) = self.apply_isolated(edits, HistoryGroup::External) {
            return Err(error);
        }
        match EditorSelection::cursor(self.buffer.as_str(), end, CaretAffinity::Downstream) {
            Ok(caret) => Ok(caret),
            Err(error) => Err(EditorDocumentError::Selection(error)),
        }
    }

    /// Rewrites a list and returns the caret, `caret` bytes into the replacement.
    pub fn apply_html_list_plan(&mut self, range: TextRange, markup: String, caret: usize) -> (r:
        Result<EditorSelection, EditorDocumentError>)
        requires
            old(self).buffer.revision.value < u64::MAX,
            range.start.value + caret <= u64::MAX,
        ensures
            ({
                let at = range.start.value + caret;
                if ordered_edits(old(self).buffer.text@, replacement(range, markup@)) {
                    &&& committed(*old(self), *final(self), replacement(range, markup@))
                    &&& r == (if boundary(final(self).buffer.text@, at as int) {
                        Ok::<EditorSelection, EditorDocumentError>(
                            EditorSelection {
                                anchor: ByteOffset { value: at as u64 },
                                focus: ByteOffset { value: at as u64 },
                                affinity: CaretAffinity::Downstream,
                            },
                        )
                    } else {
                        Err::<EditorSelection, EditorDocumentError>(
                            EditorDocumentError::Selection(SelectionError::InvalidRange),
                        )
                    })
                } else {
                    &&& r == Err::<EditorSelection, EditorDocumentError>(
                        EditorDocumentError::Transaction(TransactionError::InvalidEdit),
                    )
                    &&& unedited(*old(self), *final(self))
                }
            }),
    {
        let edits = one_edit(range, markup);
        if let Err(error) = self.apply_isolated(edits, HistoryGroup::ListEditing) {
            return Err(error);
        }
        let at = ByteOffset::new(range.start.value + caret as u64);
        match EditorSelection::cursor(self.buffer.as_str(), at, CaretAffinity::Downstream) {
            Ok(selection) => Ok(selection),
            Err(error) => Err(EditorDocumentError::Selection(error)),
        }
    }
}

/// Only the empty text takes no byte.
proof fn lemma_no_bytes(text: Seq<char>)
    ensures
        byte_len(text) == 0 <==> text.len() == 0,
{
    if text.len() > 0 {
        assert(vstd::utf8::encode_utf8(text).len() > 0);
    }
}

/// The selection that `moved` says.
pub open spec fn selection_of(moved: MovedSelection) -> EditorSelection {
    EditorSelection {
        anchor: ByteOffset { value: moved.anchor },
        focus: ByteOffset { value: moved.focus },
        affinity: moved.affinity,
    }
}

/// Whether all ends lie between characters.
pub open spec fn ends_fit(text: Seq<char>, moved: Seq<MovedSelection>) -> bool {
    forall|k: int| 0 <= k < moved.len() ==> selection_of(#[trigger] moved[k]).wf(text)
}

/// The selections at given ends.
fn selections_at(text: &str, moved: &Vec<MovedSelection>, primary: usize) -> (r: Result<
    Selections,
    EditorDocumentError,
>)
    requires
        primary < moved@.len(),
    ensures
        if ends_fit(text@, moved@) {
            &&& r is Ok
            &&& r->Ok_0.wf(text@)
            &&& r->Ok_0.primary == primary
            &&& r->Ok_0.table is None
            &&& r->Ok_0.ranges@ == moved@.map_values(|m: MovedSelection| selection_of(m))
        } else {
            r == Err::<Selections, EditorDocumentError>(
                EditorDocumentError::Selection(SelectionError::InvalidRange),
            )
        },
{
    let mut ranges: Vec<EditorSelection> = Vec::new();
    let mut i: usize = 0;
    while i < moved.len()
        invariant
            i <= moved@.len(),
            ranges@.len() == i,
            forall|k: int|
                0 <= k < i ==> (#[trigger] ranges@[k]) == selection_of(moved@[k]) && ranges@[k].wf(
                    text@,
                ),
        decreases moved@.len() - i,
    {
        let there = moved[i];
        let anchor = ByteOffset::new(there.anchor);
        let focus = ByteOffset::new(there.focus);
        match EditorSelection::range(text, anchor, focus, there.affinity) {
            Ok(range) => ranges.push(range),
            Err(error) => {
                assert(!selection_of(moved@[i as int]).wf(text@));
                return Err(EditorDocumentError::Selection(error));
            },
        }
        i += 1;
    }
    assert forall|k: int| 0 <= k < moved@.len() implies selection_of(#[trigger] moved@[k]).wf(
        text@,
    ) by {
        assert(ranges@[k] == selection_of(moved@[k]));
    }
    assert(ranges@ =~= moved@.map_values(|m: MovedSelection| selection_of(m)));
    match Selections::new(text, ranges, primary) {
        Ok(made) => Ok(made),
        Err(error) => Err(EditorDocumentError::Selection(error)),
    }
}

/// Whether `r` and `after` are what becomes of groups of list items that are to be moved:
/// one step with all selections in their new places, or nothing where the groups cannot
/// be carried out together.
pub open spec fn items_moved(
    before: EditorDocument,
    after: EditorDocument,
    selections: Selections,
    groups: Seq<GroupView>,
    r: Result<Option<Selections>, EditorDocumentError>,
) -> bool {
    if r == Ok::<Option<Selections>, EditorDocumentError>(None) {
        &&& !preparable(before.buffer.text@, selections, groups)
        &&& after == before
    } else {
        &&& committed(before, after, group_edits(groups))
        &&& exists|moved: Seq<MovedSelection>|
            {
                &&& #[trigger] outcome(before.buffer.text@, selections, groups, moved)
                &&& r matches Ok(Some(made)) && made.wf(after.buffer.text@) && made.primary
                    == selections.primary && made.table is None && made.ranges@
                    == moved.map_values(|m: MovedSelection| selection_of(m))
            }
    }
}

impl EditorDocument {
    /// Moves list items in or out as one step of its own, and returns where the
    /// selections are then. `None` where the groups cannot be applied together.
    pub fn apply_html_indent_groups(
        &mut self,
        selections: &Selections,
        groups: &Vec<HtmlIndentGroup>,
    ) -> (r: Result<Option<Selections>, EditorDocumentError>)
        requires
            old(self).buffer.revision.value < u64::MAX,
            selections.wf(old(self).buffer.text@),
        ensures
            items_moved(*old(self), *final(self), *selections, group_views(groups@), r),
    {
        let ghost views = group_views(groups@);
        let prepared = match prepare_html_list_edit(self.buffer.as_str(), selections, groups) {
            Some(prepared) => prepared,
            None => return Ok(None),
        };
        if let Err(error) = self.apply_isolated(prepared.edits, HistoryGroup::ListEditing) {
            return Err(error);
        }
        proof {
            assert(outcome(old(self).buffer.text@, *selections, views, prepared.endpoints@));
            assert forall|k: int| 0 <= k < prepared.endpoints@.len() implies selection_of(
                #[trigger] prepared.endpoints@[k],
            ).wf(self.buffer.text@) by {
                law_moved_selections_fit(
                    old(self).buffer.text@,
                    *selections,
                    views,
                    prepared.endpoints@,
                    k,
                );
            }
        }
        match selections_at(self.buffer.as_str(), &prepared.endpoints, selections.primary) {
            Ok(made) => Ok(Some(made)),
            Err(error) => Err(error),
        }
    }

    /// Writes a planned grid as one step of its own. `None` where the table already
    /// reads so.
    pub fn apply_table_grid_plan(&mut self, plan: TableGridPlan) -> (r: Result<
        Option<ChangeSet>,
        EditorDocumentError,
    >)
        requires
            old(self).buffer.revision.value < u64::MAX,
        ensures
            if reads(old(self).buffer.text@, plan.range, plan.source@) {
                r == Ok::<Option<ChangeSet>, EditorDocumentError>(None) && *final(self)
                    == *old(self)
            } else if ordered_edits(old(self).buffer.text@, edit_views(plan.edits@)) {
                &&& committed(*old(self), *final(self), edit_views(plan.edits@))
                &&& r matches Ok(Some(changes)) && tells_changes(
                    changes,
                    *old(self),
                    *final(self),
                    edit_views(plan.edits@),
                )
            } else {
                &&& r == Err::<Option<ChangeSet>, EditorDocumentError>(
                    EditorDocumentError::Transaction(TransactionError::InvalidEdit),
                )
                &&& unedited(*old(self), *final(self))
            },
    {
        if range_reads(self.buffer.as_str(), plan.range, plan.source.as_str()) {
            return Ok(None);
        }
        match self.apply_isolated(plan.edits, HistoryGroup::TableEditing) {
            Ok(changes) => Ok(Some(changes)),
            Err(error) => Err(error),
        }
    }

    /// Makes a planned edit of a table as one step of its own. `None` where the command
    /// does not apply.
    pub fn edit_table(&mut self, plan: Option<TableEditPlan>) -> (r: Result<
        Option<ChangeSet>,
        EditorDocumentError,
    >)
        requires
            old(self).buffer.revision.value < u64::MAX,
        ensures
            match plan {
                None => r == Ok::<Option<ChangeSet>, EditorDocumentError>(None) && *final(self)
                    == *old(self),
                Some(made) => if ordered_edits(
                    old(self).buffer.text@,
                    edit_views(made.edits@),
                ) {
                    &&& committed(*old(self), *final(self), edit_views(made.edits@))
                    &&& r matches Ok(Some(changes)) && tells_changes(
                        changes,
                        *old(self),
                        *final(self),
                        edit_views(made.edits@),
                    )
                } else {
                    &&& r == Err::<Option<ChangeSet>, EditorDocumentError>(
                        EditorDocumentError::Transaction(TransactionError::InvalidEdit),
                    )
                    &&& unedited(*old(self), *final(self))
                },
            },
    {
        match plan {
            None => Ok(None),
            Some(made) => match self.apply_isolated(made.edits, HistoryGroup::TableEditing) {
                Ok(changes) => Ok(Some(changes)),
                Err(error) => Err(error),
            },
        }
    }
}

/// Whether every part is there.
pub open spec fn all_written(parts: Seq<Option<String>>) -> bool {
    forall|k: int| 0 <= k < parts.len() ==> (#[trigger] parts[k]) is Some
}

/// The images with one space between.
pub open spec fn images_joined(parts: Seq<Option<String>>, count: int) -> Seq<char>
    decreases count,
{
    if count <= 0 {
        Seq::empty()
    } else if count == 1 {
        parts[0]->Some_0@
    } else {
        images_joined(parts, count - 1).push(' ') + parts[count - 1]->Some_0@
    }
}

/// What several images are written as, one after the other. `None` stands for an image
/// that cannot be written, which refuses them all.
pub fn join_images(composing: bool, parts: &[Option<String>]) -> (r: Result<
    String,
    EditorDocumentError,
>)
    ensures
        if composing {
            r == Err::<String, EditorDocumentError>(EditorDocumentError::CompositionActive)
        } else if all_written(parts@) {
            r is Ok && r->Ok_0@ == images_joined(parts@, parts@.len() as int)
        } else {
            r == Err::<String, EditorDocumentError>(EditorDocumentError::InvalidImageProperties)
        },
{
    if composing {
        return Err(EditorDocumentError::CompositionActive);
    }
    let mut out = String::new();
    let mut i: usize = 0;
    while i < parts.len()
        invariant
            i <= parts@.len(),
            !composing,
            forall|k: int| 0 <= k < i ==> (#[trigger] parts@[k]) is Some,
            out@ == images_joined(parts@, i as int),
        decreases parts@.len() - i,
    {
        match &parts[i] {
            Some(part) => {
                if i > 0 {
                    out.push(' ');
                }
                out.push_str(part.as_str());
                assert(out@ =~= images_joined(parts@, i + 1));
            },
            None => {
                assert(parts@[i as int] is None);
                return Err(EditorDocumentError::InvalidImageProperties);
            },
        }
        i += 1;
    }
    Ok(out)
}

/// A place that images are put at: the range they replace, the HTML region of the table
/// that it starts in, and whether both its ends lie in cells of that table.
#[derive(Clone, Copy, Debug, PartialEq, Eq, Structural)]
pub struct ImageTarget {
    pub range: SourceSpan,
    pub region: Option<usize>,
    pub inside_cells: bool,
}

/// What is put at targets: the images as HTML elements and as Markdown.
pub struct ImageForms {
    pub html: Seq<char>,
    pub markdown: Seq<char>,
}

/// Whether `text` is what `plain` makes of the Markdown of images for a range outside of
/// HTML cells.
pub open spec fn plain_text_is<P: Fn(&str, SourceSpan) -> String>(
    plain: P,
    markdown: Seq<char>,
    range: SourceSpan,
    text: Seq<char>,
) -> bool {
    exists|joined: &str, made: String| #[trigger]
        plain.ensures((joined, range), made) && joined@ == markdown && made@ == text
}

/// Whether `text` is what images become at a target: in an HTML cell their elements, with
/// the tags of the range kept; elsewhere, and in source mode, what `plain` makes of their
/// Markdown.
pub open spec fn image_text_is<P: Fn(&str, SourceSpan) -> String>(
    source_mode: bool,
    source: Seq<char>,
    regions: Seq<HtmlModel>,
    target: ImageTarget,
    images: ImageForms,
    plain: P,
    text: Seq<char>,
) -> bool {
    match target.region {
        Some(region) if !source_mode && target.inside_cells => exists|cursor: int| #[trigger]
            replaced(
                source,
                regions[region as int],
                target.range,
                images.html,
                Seq::empty(),
                false,
                text,
                cursor,
            ),
        _ => plain_text_is(plain, images.markdown, target.range, text),
    }
}

/// What images become at a target. `plain` writes their Markdown for a range outside of
/// HTML cells, as in a cell of a pipe table.
pub fn image_text<P: Fn(&str, SourceSpan) -> String>(
    source_mode: bool,
    source: &str,
    regions: &Vec<HtmlModel>,
    target: ImageTarget,
    html: &str,
    markdown: &str,
    plain: &P,
) -> (r: String)
    requires
        regions_wf(source@, regions@),
        span_wf(source@, target.range),
        target.region matches Some(region) ==> region < regions@.len(),
        forall|joined: &str, range: SourceSpan| #[trigger] plain.requires((joined, range)),
    ensures
        image_text_is(
            source_mode,
            source@,
            regions@,
            target,
            ImageForms { html: html@, markdown: markdown@ },
            *plain,
            r@,
        ),
{
    let ghost images = ImageForms { html: html@, markdown: markdown@ };
    let table = match target.region {
        Some(region) => {
            assert(regions@[region as int].wf(source@));
            Some(&regions[region])
        },
        None => None,
    };
    match html_table_replacement_text(
        source_mode,
        source,
        table,
        target.inside_cells,
        target.range,
        html,
    ) {
        Some((text, cursor)) => {
            assert(replaced(
                source@,
                regions@[target.region->Some_0 as int],
                target.range,
                images.html,
                Seq::empty(),
                false,
                text@,
                cursor as int,
            ));
            text
        },
        None => {
            let made = plain(markdown, target.range);
            proof {
                assert((*plain).ensures((markdown, target.range), made));
                assert(plain_text_is(*plain, markdown@, target.range, made@));
            }
            made
        },
    }
}

/// Whether the edits put images at the targets, one for one.
pub open spec fn image_edits_are<P: Fn(&str, SourceSpan) -> String>(
    source_mode: bool,
    source: Seq<char>,
    regions: Seq<HtmlModel>,
    targets: Seq<ImageTarget>,
    images: ImageForms,
    plain: P,
    edits: Seq<EditView>,
) -> bool {
    &&& edits.len() == targets.len()
    &&& forall|i: int|
        0 <= i < targets.len() ==> (#[trigger] edits[i]).start == targets[i].range.start
            && edits[i].end == targets[i].range.end && image_text_is(
            source_mode,
            source,
            regions,
            targets[i],
            images,
            plain,
            edits[i].text,
        )
}

/// Whether the targets lie in the text, in known regions.
pub open spec fn targets_wf(
    source: Seq<char>,
    regions: Seq<HtmlModel>,
    targets: Seq<ImageTarget>,
) -> bool {
    forall|i: int|
        0 <= i < targets.len() ==> span_wf(source, (#[trigger] targets[i]).range) && (
        targets[i].region matches Some(region) ==> region < regions.len())
}

impl EditorDocument {
    /// Puts images at every target as one step of its own, and returns the carets behind
    /// them. `markdown` and `html` hold the images in both forms; one that cannot be
    /// written refuses them all. `plain` writes their Markdown for a range outside of HTML
    /// cells. `None` where there is no image.
    pub fn insert_local_images<P: Fn(&str, SourceSpan) -> String>(
        &mut self,
        regions: &Vec<HtmlModel>,
        targets: &Vec<ImageTarget>,
        markdown: &[Option<String>],
        html: &[Option<String>],
        plain: P,
    ) -> (r: Result<Option<Vec<ByteOffset>>, EditorDocumentError>)
        requires
            old(self).buffer.revision.value < u64::MAX,
            regions_wf(old(self).buffer.text@, regions@),
            targets_wf(old(self).buffer.text@, regions@, targets@),
            markdown@.len() == html@.len(),
            forall|joined: &str, range: SourceSpan| #[trigger] plain.requires((joined, range)),
        ensures
            ({
                let text = old(self).buffer.text@;
                let images = ImageForms {
                    html: images_joined(html@, html@.len() as int),
                    markdown: images_joined(markdown@, markdown@.len() as int),
                };
                if old(self).composing {
                    &&& r == Err::<Option<Vec<ByteOffset>>, EditorDocumentError>(
                        EditorDocumentError::CompositionActive,
                    )
                    &&& *final(self) == *old(self)
                } else if markdown@.len() == 0 {
                    &&& r == Ok::<Option<Vec<ByteOffset>>, EditorDocumentError>(None)
                    &&& *final(self) == *old(self)
                } else if !all_written(markdown@) || !all_written(html@) {
                    &&& r == Err::<Option<Vec<ByteOffset>>, EditorDocumentError>(
                        EditorDocumentError::InvalidImageProperties,
                    )
                    &&& *final(self) == *old(self)
                } else {
                    exists|edits: Seq<EditView>|
                        {
                            &&& #[trigger] image_edits_are(
                                old(self).source_mode,
                                text,
                                regions@,
                                targets@,
                                images,
                                plain,
                                edits,
                            )
                            &&& if ordered_edits(text, edits) {
                                &&& committed(*old(self), *final(self), edits)
                                &&& r is Ok && r->Ok_0 is Some
                                &&& r->Ok_0->Some_0@.len() == edits.len()
                                &&& forall|i: int|
                                    0 <= i < edits.len() ==> (
                                    #[trigger] r->Ok_0->Some_0@[i]).value == inverse_edits(
                                        text,
                                        0,
                                        edits,
                                        0,
                                    )[i].end
                            } else {
                                &&& r == Err::<Option<Vec<ByteOffset>>, EditorDocumentError>(
                                    EditorDocumentError::Transaction(TransactionError::InvalidEdit),
                                )
                                &&& unedited(*old(self), *final(self))
                            }
                        }
                }
            }),
    {
        if self.composing {
            return Err(EditorDocumentError::CompositionActive);
        }
        if markdown.len() == 0 {
            return Ok(None);
        }
        let written = match join_images(false, markdown) {
            Ok(written) => written,
            Err(error) => return Err(error),
        };
        let elements = match join_images(false, html) {
            Ok(elements) => elements,
            Err(error) => return Err(error),
        };
        let ghost text = self.buffer.text@;
        let ghost images = ImageForms { html: elements@, markdown: written@ };
        let mut edits: Vec<Edit> = Vec::new();
        let mut i: usize = 0;
        while i < targets.len()
            invariant
                i <= targets@.len(),
                images == (ImageForms { html: elements@, markdown: written@ }),
                forall|joined: &str, range: SourceSpan| #[trigger]
                    plain.requires((joined, range)),
                *self == *old(self),
                text == self.buffer.text@,
                regions_wf(text, regions@),
                targets_wf(text, regions@, targets@),
                edits@.len() == i,
                forall|k: int|
                    0 <= k < i ==> (#[trigger] edits@[k])@.start == targets@[k].range.start
                        && edits@[k]@.end == targets@[k].range.end && image_text_is(
                        self.source_mode,
                        text,
                        regions@,
                        targets@[k],
                        images,
                        plain,
                        edits@[k]@.text,
                    ),
            decreases targets@.len() - i,
        {
            let target = targets[i];
            assert(span_wf(text, targets@[i as int].range));
            let made = image_text(
                self.source_mode,
                self.buffer.as_str(),
                regions,
                target,
                elements.as_str(),
                written.as_str(),
                &plain,
            );
            edits.push(Edit::replace(target.range.start, target.range.end, made));
            i += 1;
        }
        let ghost views = edit_views(edits@);
        proof {
            assert forall|k: int| 0 <= k < targets@.len() implies (#[trigger] views[k]).start
                == targets@[k].range.start && views[k].end == targets@[k].range.end
                && image_text_is(
                self.source_mode,
                text,
                regions@,
                targets@[k],
                images,
                plain,
                views[k].text,
            ) by {
                assert(views[k] == edits@[k]@);
            }
            assert(image_edits_are(
                self.source_mode,
                text,
                regions@,
                targets@,
                images,
                plain,
                views,
            ));
        }
        match self.apply_isolated(edits, HistoryGroup::External) {
            Ok(changes) => Ok(Some(change_ends(&changes))),
            Err(error) => Err(error),
        }
    }
}

/// Where each change's text ends.
fn change_ends(changes: &ChangeSet) -> (r: Vec<ByteOffset>)
    ensures
        r@.len() == changes.changes@.len(),
        forall|i: int| 0 <= i < r@.len() ==> (#[trigger] r@[i]) == changes.changes@[i].new.end,
{
    let mut out: Vec<ByteOffset> = Vec::new();
    let mut i: usize = 0;
    while i < changes.changes.len()
        invariant
            i <= changes.changes@.len(),
            out@.len() == i,
            forall|k: int| 0 <= k < i ==> (#[trigger] out@[k]) == changes.changes@[k].new.end,
        decreases changes.changes@.len() - i,
    {
        out.push(changes.changes[i].new.end);
        i += 1;
    }
    out
}

/// What became of a request to move list items.
#[derive(Debug)]
pub enum ListIndent {
    /// Items moved; the selections are here now.
    Moved(Selections),
    /// Nothing changed.
    Unchanged,
    /// The selection is in no list of this kind.
    Elsewhere,
}

/// Whether `r` and `after` are what becomes of a request to move list items.
pub open spec fn list_moved(
    before: EditorDocument,
    after: EditorDocument,
    selections: Selections,
    groups: Option<Seq<GroupView>>,
    in_list: bool,
    r: Result<ListIndent, EditorDocumentError>,
) -> bool {
    match groups {
        None => {
            &&& after == before
            &&& r == Ok::<ListIndent, EditorDocumentError>(
                if in_list {
                    ListIndent::Unchanged
                } else {
                    ListIndent::Elsewhere
                },
            )
        },
        Some(views) => {
            &&& r != Ok::<ListIndent, EditorDocumentError>(ListIndent::Elsewhere)
            &&& items_moved(before, after, selections, views, new_selections(r))
        },
    }
}

/// The selections of items that moved.
pub open spec fn new_selections(r: Result<ListIndent, EditorDocumentError>) -> Result<
    Option<Selections>,
    EditorDocumentError,
> {
    match r {
        Ok(ListIndent::Moved(made)) => Ok(Some(made)),
        Ok(_) => Ok(None),
        Err(error) => Err(error),
    }
}

impl EditorDocument {
    /// Moves the selected list items one level in or out. `origins` says of each selection
    /// which HTML region it is in; `gaps` holds what was read of the stretches between the
    /// lists. A selection in a list that cannot be moved changes
    /// nothing rather than a part of it.
    pub fn change_html_list_indent(
        &mut self,
        regions: &Vec<HtmlModel>,
        origins: &Vec<ListSelection>,
        gaps: &Vec<ParsedGap>,
        selections: &Selections,
        indent: bool,
    ) -> (r: Result<ListIndent, EditorDocumentError>)
        requires
            old(self).buffer.revision.value < u64::MAX,
            selections.wf(old(self).buffer.text@),
            regions_wf(old(self).buffer.text@, regions@),
            origins_match(old(self).buffer.text@, regions@, origins@, *selections),
        ensures
            list_moved(
                *old(self),
                *final(self),
                *selections,
                command_groups(
                    old(self).source_mode,
                    old(self).buffer.text@,
                    regions@,
                    origins@,
                    gaps@,
                    *selections,
                    indent,
                ),
                selects_in_list(old(self).source_mode, regions@, selections.ranges@),
                r,
            ),
    {
        let planned = plan_html_list_command(
            self.source_mode,
            self.buffer.as_str(),
            regions,
            origins,
            gaps,
            selections,
            indent,
        );
        let in_list = has_html_list_selection(self.source_mode, regions, selections);
        self.move_html_list_items(selections, planned, in_list)
    }

    /// Moves list items as planned. Without a plan nothing changes.
    fn move_html_list_items(
        &mut self,
        selections: &Selections,
        planned: Option<Vec<HtmlIndentGroup>>,
        in_list: bool,
    ) -> (r: Result<ListIndent, EditorDocumentError>)
        requires
            old(self).buffer.revision.value < u64::MAX,
            selections.wf(old(self).buffer.text@),
        ensures
            list_moved(*old(self), *final(self), *selections, planned_views(planned), in_list, r),
    {
        match planned {
            Some(groups) => match self.apply_html_indent_groups(selections, &groups) {
                Ok(Some(made)) => Ok(ListIndent::Moved(made)),
                Ok(None) => Ok(ListIndent::Unchanged),
                Err(error) => Err(error),
            },
            None => {
                if in_list {
                    Ok(ListIndent::Unchanged)
                } else {
                    Ok(ListIndent::Elsewhere)
                }
            },
        }
    }
}

/// The models of planned groups.
pub open spec fn planned_views(planned: Option<Vec<HtmlIndentGroup>>) -> Option<Seq<GroupView>> {
    match planned {
        Some(groups) => Some(group_views(groups@)),
        None => None,
    }
}

/// Whether a character ends a line of source.
pub open spec fn source_break(c: char) -> bool {
    c == '\r' || c == '\n'
}

/// The first character from `from` on that is no line break, or the length.
pub open spec fn past_breaks(text: Seq<char>, from: int) -> int
    decreases text.len() - from,
{
    if 0 <= from < text.len() && source_break(text[from]) {
        past_breaks(text, from + 1)
    } else {
        from
    }
}

/// Where the text before `to` ends once line breaks there are left out, not before
/// `from`.
pub open spec fn before_breaks(text: Seq<char>, from: int, to: int) -> int
    decreases to - from,
{
    if from < to && source_break(text[to - 1]) {
        before_breaks(text, from, to - 1)
    } else {
        to
    }
}

/// The source of a pasted table: without the line breaks at its ends.
pub fn pasted_table_source(source: &str) -> (r: String)
    ensures
        ({
            let start = past_breaks(source@, 0);
            r@ == source@.subrange(start, before_breaks(source@, start, source@.len() as int))
        }),
{
    let chars = chars_of(source);
    let mut start: usize = 0;
    while start < chars.len() && (chars[start] == '\r' || chars[start] == '\n')
        invariant
            start <= chars@.len(),
            past_breaks(chars@, start as int) == past_breaks(chars@, 0),
        decreases chars@.len() - start,
    {
        start += 1;
    }
    let mut end: usize = chars.len();
    while start < end && (chars[end - 1] == '\r' || chars[end - 1] == '\n')
        invariant
            start <= end <= chars@.len(),
            before_breaks(chars@, start as int, end as int) == before_breaks(
                chars@,
                start as int,
                chars@.len() as int,
            ),
        decreases end - start,
    {
        end -= 1;
    }
    crate::text::string_of(&chars, start, end)
}

/// The cells of a pasted table, read out of its source at the given spans in order.
/// `None` where a span does not fit the source.
pub fn markdown_table_grid(source: &str, cells: &[SourceSpan]) -> (r: Option<
    Vec<String>,
>)
    ensures
        r is Some <==> forall|k: int|
            0 <= k < cells@.len() ==> span_wf(source@, #[trigger] cells@[k]),
        r matches Some(out) ==> out@.len() == cells@.len() && forall|k: int|
            0 <= k < cells@.len() ==> (#[trigger] out@[k])@ == span(
                source@,
                cells@[k].start as int,
                cells@[k].end as int,
            ),
{
    let mut out: Vec<String> = Vec::new();
    let mut i: usize = 0;
    while i < cells.len()
        invariant
            i <= cells@.len(),
            out@.len() == i,
            forall|k: int|
                0 <= k < i ==> span_wf(source@, #[trigger] cells@[k]),
            forall|k: int|
                0 <= k < i ==> (#[trigger] out@[k])@ == span(
                    source@,
                    cells@[k].start as int,
                    cells@[k].end as int,
                ),
        decreases cells@.len() - i,
    {
        match get(source, cells[i].start, cells[i].end) {
            Some(part) => out.push(part.to_owned()),
            None => {
                assert(!span_wf(source@, cells@[i as int]));
                return None;
            },
        }
        i += 1;
    }
    Some(out)
}

/// Several images stand in order, with one space between each and the next and nothing
/// before the first or behind the last.
pub proof fn law_images_stand_in_order(parts: Seq<Option<String>>, count: int)
    requires
        0 < count <= parts.len(),
    ensures
        images_joined(parts, count) == woven(
            Seq::new(count as nat, |k: int| parts[k]->Some_0@),
            Seq::new((count - 1) as nat, |k: int| seq![' ']),
        ),
    decreases count,
{
    let texts = Seq::new(count as nat, |k: int| parts[k]->Some_0@);
    let gaps = Seq::new((count - 1) as nat, |k: int| seq![' ']);
    if count == 1 {
        assert(woven(texts, gaps) == texts[0]);
    } else {
        law_images_stand_in_order(parts, count - 1);
        let fewer = Seq::new((count - 1) as nat, |k: int| parts[k]->Some_0@);
        let between = Seq::new((count - 2) as nat, |k: int| seq![' ']);
        assert(texts.take(count - 1) =~= fewer);
        assert(texts.take(count) =~= texts);
        lemma_woven_gaps(fewer, between, gaps);
        lemma_woven_push(texts, gaps, count);
        assert(images_joined(parts, count) =~= woven(fewer, gaps) + gaps[count - 2]
            + texts[count - 1]);
    }
}

/// The line breaks at the two ends of a pasted table are left out, all of them and nothing
/// else: what is left out is returned.
pub proof fn law_pasted_table_loses_its_outer_breaks(source: Seq<char>) -> (r: (
    Seq<char>,
    Seq<char>,
))
    ensures
        ({
            let start = past_breaks(source, 0);
            let end = before_breaks(source, start, source.len() as int);
            let table = source.subrange(start, end);
            &&& source == r.0 + table + r.1
            &&& forall|k: int| 0 <= k < r.0.len() ==> r.0[k] == '\r' || r.0[k] == '\n'
            &&& forall|k: int| 0 <= k < r.1.len() ==> r.1[k] == '\r' || r.1[k] == '\n'
            &&& table.len() > 0 ==> table[0] != '\r' && table[0] != '\n' && table.last() != '\r'
                && table.last() != '\n'
        }),
{
    lemma_past_breaks(source, 0);
    let start = past_breaks(source, 0);
    lemma_before_breaks(source, start, source.len() as int);
    let end = before_breaks(source, start, source.len() as int);
    let front = source.take(start);
    let back = source.skip(end);
    assert(source =~= front + source.subrange(start, end) + back);
    assert forall|k: int| 0 <= k < back.len() implies back[k] == '\r' || back[k] == '\n' by {
        assert(source_break(source[end + k]));
    }
    assert forall|k: int| 0 <= k < front.len() implies front[k] == '\r' || front[k] == '\n' by {
        assert(source_break(source[k]));
    }
    (front, back)
}

proof fn lemma_past_breaks(text: Seq<char>, from: int)
    requires
        0 <= from <= text.len(),
    ensures
        from <= past_breaks(text, from) <= text.len(),
        forall|k: int| from <= k < past_breaks(text, from) ==> source_break(#[trigger] text[k]),
        past_breaks(text, from) < text.len() ==> !source_break(text[past_breaks(text, from)]),
    decreases text.len() - from,
{
    if from < text.len() && source_break(text[from]) {
        lemma_past_breaks(text, from + 1);
    }
}

proof fn lemma_before_breaks(text: Seq<char>, from: int, to: int)
    requires
        0 <= from <= to <= text.len(),
    ensures
        from <= before_breaks(text, from, to) <= to,
        forall|k: int| before_breaks(text, from, to) <= k < to ==> source_break(#[trigger] text[k]),
        before_breaks(text, from, to) > from ==> !source_break(
            text[before_breaks(text, from, to) - 1],
        ),
    decreases to - from,
{
    if from < to && source_break(text[to - 1]) {
        lemma_before_breaks(text, from, to - 1);
    }
}

} // verus!
