//! The line break and the backspace in lists written in HTML.
use crate::document::error::EditorDocumentError;
use crate::document::html_list::{html_list_outdent_at, outdent_at, ListPlanView};
use crate::document::html_list_groups::{
    carets_inside, compacted, lemma_compacted_carets, lemma_inner_range, lemma_trimmed_caret,
    plan_views, ParsedGap,
};
use crate::document::html_list_plans::{
    at_content_start, at_html_list_content_start, split_markup,
};
use crate::document::html_list_selection::{regions_wf, selects_in_list, ListSelection};
use crate::document::html_list_edit::{command_groups, origins_match};
use crate::document::html_list_split::{
    finish_html_list_split, lemma_outdent_caret, plan_edits, plans_overlap, split_choice,
    split_html_list_items, SplitEdits, SplitInput,
};
use crate::document::session::{committed, list_moved, EditorDocument, ListIndent};
use crate::edit::{
    change_of, edit_views, inverse_edits, law_inserted_text_stands, ordered_edits, ChangeSet, Edit,
    EditView,
};
use crate::history::HistoryGroup;
use crate::html::HtmlModel;
use crate::offset::ByteOffset;
use crate::selection::{CaretAffinity, EditorSelection, SelectionError, Selections};
use crate::text::{boundary, byte_len, lemma_boundary_bounds, lemma_boundary_ends, text_len};
use vstd::prelude::*;

verus! {

/// What is planned at every selection.
pub open spec fn choice_plans(
    text: Seq<char>,
    regions: Seq<HtmlModel>,
    inputs: Seq<SplitInput>,
    allow_exit: bool,
) -> Seq<ListPlanView> {
    inputs.map_values(|input: SplitInput| split_choice(text, regions, input, allow_exit).plan)
}

/// Which selections leave their list.
pub open spec fn choice_exits(
    text: Seq<char>,
    regions: Seq<HtmlModel>,
    inputs: Seq<SplitInput>,
    allow_exit: bool,
) -> Seq<bool> {
    inputs.map_values(|input: SplitInput| split_choice(text, regions, input, allow_exit).exit)
}

/// Whether list markup changes at a selection.
pub open spec fn any_structural(
    text: Seq<char>,
    regions: Seq<HtmlModel>,
    inputs: Seq<SplitInput>,
    allow_exit: bool,
) -> bool {
    exists|i: int|
        0 <= i < inputs.len() && split_choice(
            text,
            regions,
            #[trigger] inputs[i],
            allow_exit,
        ).structural
}

/// What is planned for all selections together.
pub open spec fn joined_plans(
    text: Seq<char>,
    regions: Seq<HtmlModel>,
    inputs: Seq<SplitInput>,
    gaps: Seq<ParsedGap>,
    allow_exit: bool,
) -> Seq<ListPlanView> {
    compacted(
        text,
        choice_plans(text, regions, inputs, allow_exit),
        choice_exits(text, regions, inputs, allow_exit),
        gaps,
        inputs.len() as int,
    )
}

/// How a single caret leaves its list from an empty item.
pub open spec fn single_exit(
    text: Seq<char>,
    regions: Seq<HtmlModel>,
    inputs: Seq<SplitInput>,
) -> Option<ListPlanView> {
    if inputs.len() == 1 && inputs[0].range.start == inputs[0].range.end && inputs[0].region is Some {
        outdent_at(
            text,
            regions[inputs[0].region->Some_0 as int],
            inputs[0].range.start as int,
            true,
        )
    } else {
        None
    }
}

/// What a line break does in lists: a single caret in an empty item leaves the list.
/// Else every caret in an empty item leaves its list and every other one splits its item;
/// where leaving lists overlaps, all of them split. `None` where no list changes, or
/// where splitting overlaps too.
pub open spec fn break_plans(
    text: Seq<char>,
    regions: Seq<HtmlModel>,
    inputs: Seq<SplitInput>,
    gaps: Seq<ParsedGap>,
) -> Option<Seq<ListPlanView>> {
    let leaving = joined_plans(text, regions, inputs, gaps, true);
    let staying = joined_plans(text, regions, inputs, gaps, false);
    match single_exit(text, regions, inputs) {
        Some(plan) => Some(seq![plan]),
        None => if !any_structural(text, regions, inputs, true) {
            None
        } else if !plans_overlap(leaving) {
            Some(leaving)
        } else if any_structural(text, regions, inputs, false) && !plans_overlap(staying) {
            Some(staying)
        } else {
            None
        },
    }
}

/// Whether `made` makes the edits of `plans`, in order, and puts the carets there.
pub open spec fn edits_of(text: Seq<char>, made: SplitEdits, plans: Seq<ListPlanView>) -> bool {
    &&& edit_views(made.edits@) == plan_edits(plans)
    &&& ordered_edits(text, plan_edits(plans))
    &&& made.carets@.len() == plans.len()
    &&& forall|i: int| 0 <= i < plans.len() ==> (#[trigger] made.carets@[i]) == plans[i].caret
}

/// Plans how a single caret leaves its list from an empty item.
fn html_list_outdent_plan(source: &str, regions: &Vec<HtmlModel>, inputs: &Vec<SplitInput>) -> (r:
    Option<SplitEdits>)
    requires
        regions_wf(source@, regions@),
        forall|i: int| 0 <= i < inputs@.len() ==> (#[trigger] inputs@[i]).wf(source@, regions@),
    ensures
        match single_exit(source@, regions@, inputs@) {
            Some(plan) => r matches Some(made) && edits_of(source@, made, seq![plan]),
            None => r is None,
        },
{
    if inputs.len() != 1 || inputs[0].range.start != inputs[0].range.end {
        return None;
    }
    assert(inputs@[0].wf(source@, regions@));
    let region = inputs[0].region?;
    let model = &regions[region];
    assert(regions@[region as int].wf(source@));
    let caret = inputs[0].range.start;
    let plan = html_list_outdent_at(source, model, caret, true)?;
    proof {
        lemma_boundary_bounds(source@, caret as int);
        lemma_outdent_caret(source@, *model, caret as int, true);
    }
    let ghost view = plan@;
    let mut edits: Vec<Edit> = Vec::new();
    edits.push(Edit::replace(plan.range.start, plan.range.end, plan.text));
    let mut carets: Vec<usize> = Vec::new();
    carets.push(plan.caret);
    proof {
        assert(edit_views(edits@) =~= plan_edits(seq![view]));
    }
    Some(SplitEdits { edits, carets })
}

/// Plans the splitting of every selection, with or without leaving lists.
fn attempt_break(
    source: &str,
    regions: &Vec<HtmlModel>,
    inputs: &Vec<SplitInput>,
    gaps: &Vec<ParsedGap>,
    allow_exit: bool,
) -> (r: (bool, Option<SplitEdits>))
    requires
        regions_wf(source@, regions@),
        forall|i: int| 0 <= i < inputs@.len() ==> (#[trigger] inputs@[i]).wf(source@, regions@),
    ensures
        r.0 == any_structural(source@, regions@, inputs@, allow_exit),
        ({
            let plans = joined_plans(source@, regions@, inputs@, gaps@, allow_exit);
            match r.1 {
                Some(made) => r.0 && !plans_overlap(plans) && edits_of(source@, made, plans),
                None => !r.0 || plans_overlap(plans),
            }
        }),
{
    let splits = split_html_list_items(source, regions, inputs, allow_exit);
    let structural = splits.structural;
    proof {
        assert forall|i: int| 0 <= i < inputs@.len() implies plan_views(splits.plans@)[i]
            == choice_plans(source@, regions@, inputs@, allow_exit)[i] && splits.exits@[i]
            == choice_exits(source@, regions@, inputs@, allow_exit)[i] by {
            let input = inputs@[i];
        }
        assert(plan_views(splits.plans@) =~= choice_plans(source@, regions@, inputs@, allow_exit));
        assert(splits.exits@ =~= choice_exits(source@, regions@, inputs@, allow_exit));
        assert forall|i: int| 0 <= i < splits.plans@.len() implies crate::html::span_wf(
            source@,
            (#[trigger] splits.plans@[i]).range,
        ) by {
            let input = inputs@[i];
        }
    }
    (structural, finish_html_list_split(source, splits, gaps))
}

/// Plans a line break at every selection. `gaps` holds what was read of the stretches
/// between lists that are left.
pub fn plan_list_break(
    source: &str,
    regions: &Vec<HtmlModel>,
    inputs: &Vec<SplitInput>,
    gaps: &Vec<ParsedGap>,
) -> (r: Option<SplitEdits>)
    requires
        regions_wf(source@, regions@),
        forall|i: int| 0 <= i < inputs@.len() ==> (#[trigger] inputs@[i]).wf(source@, regions@),
    ensures
        match break_plans(source@, regions@, inputs@, gaps@) {
            Some(plans) => r matches Some(made) && edits_of(source@, made, plans),
            None => r is None,
        },
{
    if let Some(made) = html_list_outdent_plan(source, regions, inputs) {
        return Some(made);
    }
    let (structural, made) = attempt_break(source, regions, inputs, gaps, true);
    if made.is_some() || !structural {
        return made;
    }
    attempt_break(source, regions, inputs, gaps, false).1
}

/// Where a caret stands `carets[i]` bytes into the text of edit number `i`.
pub open spec fn caret_place(
    text: Seq<char>,
    edits: Seq<EditView>,
    carets: Seq<int>,
    i: int,
) -> int {
    inverse_edits(text, 0, edits, 0)[i].start + carets[i]
}

/// The carets of plans, relative to their texts.
pub open spec fn plan_carets(plans: Seq<ListPlanView>) -> Seq<int> {
    plans.map_values(|plan: ListPlanView| plan.caret)
}

/// Whether edits were made as one step of its own, and `made` holds a caret in each.
pub open spec fn broken(
    before: EditorDocument,
    after: EditorDocument,
    edits: Seq<EditView>,
    carets: Seq<int>,
    primary: usize,
    made: Selections,
) -> bool {
    &&& committed(before, after, edits)
    &&& made.wf(after.buffer.text@)
    &&& made.primary == primary
    &&& made.table is None
    &&& made.ranges@ == Seq::new(
        carets.len(),
        |i: int| caret_at(caret_place(before.buffer.text@, edits, carets, i)),
    )
}

/// A caret at a byte.
pub open spec fn caret_at(place: int) -> EditorSelection {
    EditorSelection {
        anchor: ByteOffset { value: place as u64 },
        focus: ByteOffset { value: place as u64 },
        affinity: CaretAffinity::Downstream,
    }
}

/// Puts a caret `carets` bytes into each change.
fn carets_in(text: &str, changes: &ChangeSet, carets: &Vec<usize>) -> (r: Option<
    Vec<EditorSelection>,
>)
    requires
        changes.changes@.len() == carets@.len(),
    ensures
        r is Some <==> forall|i: int|
            0 <= i < carets@.len() ==> boundary(
                text@,
                (#[trigger] changes.changes@[i]).new.start.value + carets@[i],
            ),
        r matches Some(made) ==> made@.len() == carets@.len() && forall|i: int|
            0 <= i < carets@.len() ==> (#[trigger] made@[i]) == caret_at(
                changes.changes@[i].new.start.value + carets@[i],
            ) && made@[i].wf(text@),
{
    let mut made: Vec<EditorSelection> = Vec::new();
    let total = text_len(text);
    let mut i: usize = 0;
    while i < carets.len()
        invariant
            i <= carets@.len() == changes.changes@.len(),
            total == byte_len(text@),
            made@.len() == i,
            forall|k: int|
                0 <= k < i ==> boundary(
                    text@,
                    (#[trigger] changes.changes@[k]).new.start.value + carets@[k],
                ),
            forall|k: int|
                0 <= k < i ==> (#[trigger] made@[k]) == caret_at(
                    changes.changes@[k].new.start.value + carets@[k],
                ) && made@[k].wf(text@),
        decreases carets@.len() - i,
    {
        let start: u64 = changes.changes[i].new.start.value;
        let ghost place = changes.changes@[i as int].new.start.value + carets@[i as int];
        if start > total as u64 || carets[i] as u64 > total as u64 - start {
            proof {
                if boundary(text@, place) {
                    lemma_boundary_bounds(text@, place);
                }
            }
            return None;
        }
        let at = ByteOffset::new(start + carets[i] as u64);
        match EditorSelection::cursor(text, at, CaretAffinity::Downstream) {
            Ok(caret) => made.push(caret),
            Err(_) => return None,
        }
        i += 1;
    }
    Some(made)
}

/// What is planned at a selection puts its caret between characters.
proof fn lemma_choice_caret(
    text: Seq<char>,
    regions: Seq<HtmlModel>,
    input: SplitInput,
    allow_exit: bool,
)
    requires
        regions_wf(text, regions),
        input.wf(text, regions),
    ensures
        ({
            let plan = split_choice(text, regions, input, allow_exit).plan;
            boundary(plan.text, plan.caret)
        }),
{
    if input.region is Some && input.range.start == input.range.end {
        let model = regions[input.region->Some_0 as int];
        let caret = input.range.start as int;
        assert(model.wf(text));
        lemma_boundary_bounds(text, caret);
        lemma_outdent_caret(text, model, caret, true);
        if let Some(plan) = outdent_at(text, model, caret, true) {
            lemma_trimmed_caret(text, plan);
        }
        if let Some(markup) = split_markup(text, model, caret) {
            lemma_boundary_ends(markup);
        }
    }
}

proof fn lemma_joined_carets(
    text: Seq<char>,
    regions: Seq<HtmlModel>,
    inputs: Seq<SplitInput>,
    gaps: Seq<ParsedGap>,
    allow_exit: bool,
)
    requires
        regions_wf(text, regions),
        forall|i: int| 0 <= i < inputs.len() ==> (#[trigger] inputs[i]).wf(text, regions),
    ensures
        joined_plans(text, regions, inputs, gaps, allow_exit).len() == inputs.len(),
        carets_inside(joined_plans(text, regions, inputs, gaps, allow_exit)),
{
    let plans = choice_plans(text, regions, inputs, allow_exit);
    assert forall|i: int| 0 <= i < plans.len() implies boundary(
        (#[trigger] plans[i]).text,
        plans[i].caret,
    ) by {
        assert(inputs[i].wf(text, regions));
        lemma_choice_caret(text, regions, inputs[i], allow_exit);
    }
    lemma_compacted_carets(
        text,
        plans,
        choice_exits(text, regions, inputs, allow_exit),
        gaps,
        inputs.len() as int,
    );
}

/// A line break in lists is planned for every selection, and puts each caret between
/// characters of what it writes.
pub proof fn law_break_places_carets(
    text: Seq<char>,
    regions: Seq<HtmlModel>,
    inputs: Seq<SplitInput>,
    gaps: Seq<ParsedGap>,
)
    requires
        regions_wf(text, regions),
        forall|i: int| 0 <= i < inputs.len() ==> (#[trigger] inputs[i]).wf(text, regions),
    ensures
        break_plans(text, regions, inputs, gaps) matches Some(plans) ==> plans.len()
            == inputs.len() && carets_inside(plans),
{
    lemma_joined_carets(text, regions, inputs, gaps, true);
    lemma_joined_carets(text, regions, inputs, gaps, false);
    if let Some(plan) = single_exit(text, regions, inputs) {
        assert(inputs[0].wf(text, regions));
        let model = regions[inputs[0].region->Some_0 as int];
        assert(model.wf(text));
        lemma_boundary_bounds(text, inputs[0].range.start as int);
        lemma_outdent_caret(text, model, inputs[0].range.start as int, true);
    }
}

impl EditorDocument {
    /// Breaks the line at every selection in a list, as one step of its own, and returns
    /// the carets. `None` where no list changes, as in source mode.
    pub fn split_html_list_item(
        &mut self,
        regions: &Vec<HtmlModel>,
        inputs: &Vec<SplitInput>,
        gaps: &Vec<ParsedGap>,
        primary: usize,
    ) -> (r: Result<Option<Selections>, EditorDocumentError>)
        requires
            old(self).buffer.revision.value < u64::MAX,
            regions_wf(old(self).buffer.text@, regions@),
            forall|i: int|
                0 <= i < inputs@.len() ==> (#[trigger] inputs@[i]).wf(
                    old(self).buffer.text@,
                    regions@,
                ),
                primary < inputs@.len(),
        ensures
            ({
                let text = old(self).buffer.text@;
                let planned = if old(self).source_mode {
                    None
                } else {
                    break_plans(text, regions@, inputs@, gaps@)
                };
                match planned {
                    None => {
                        &&& r == Ok::<Option<Selections>, EditorDocumentError>(None)
                        &&& *final(self) == *old(self)
                    },
                    Some(plans) => r matches Ok(Some(made)) && broken(
                        *old(self),
                        *final(self),
                        plan_edits(plans),
                        plan_carets(plans),
                        primary,
                        made,
                    ),
                }
            }),
    {
        if self.source_mode {
            return Ok(None);
        }
        let made = match plan_list_break(self.buffer.as_str(), regions, inputs, gaps) {
            Some(made) => made,
            None => return Ok(None),
        };
        let ghost plans = break_plans(self.buffer.text@, regions@, inputs@, gaps@)->Some_0;
        proof {
            law_break_places_carets(self.buffer.text@, regions@, inputs@, gaps@);
            assert(made.carets@.map_values(|caret: usize| caret as int) =~= plan_carets(plans));
            assert(edit_views(made.edits@).len() == made.edits@.len());
            assert forall|i: int| 0 <= i < made.edits@.len() implies boundary(
                (#[trigger] edit_views(made.edits@)[i]).text,
                made.carets@[i] as int,
            ) by {
                assert(plan_edits(plans)[i].text == plans[i].text);
                assert(made.carets@[i] == plans[i].caret);
            }
        }
        self.commit_carets(made, primary)
    }

    /// Makes edits as one step of its own, and puts a caret into each.
    fn commit_carets(&mut self, made: SplitEdits, primary: usize) -> (r: Result<
        Option<Selections>,
        EditorDocumentError,
    >)
        requires
            old(self).buffer.revision.value < u64::MAX,
            ordered_edits(old(self).buffer.text@, edit_views(made.edits@)),
            made.carets@.len() == made.edits@.len(),
            primary < made.carets@.len(),
            forall|i: int|
                0 <= i < made.edits@.len() ==> boundary(
                    (#[trigger] edit_views(made.edits@)[i]).text,
                    made.carets@[i] as int,
                ),
        ensures
            r matches Ok(Some(selections)) && broken(
                *old(self),
                *final(self),
                edit_views(made.edits@),
                made.carets@.map_values(|caret: usize| caret as int),
                primary,
                selections,
            ),
    {
        let ghost text = self.buffer.text@;
        let ghost edits = edit_views(made.edits@);
        let ghost places = made.carets@.map_values(|caret: usize| caret as int);
        let carets = made.carets;
        let changes = match self.apply_isolated(made.edits, HistoryGroup::ListEditing) {
            Ok(changes) => changes,
            Err(error) => return Err(error),
        };
        let ghost after = self.buffer.text@;
        proof {
            assert forall|i: int| 0 <= i < places.len() implies #[trigger] caret_place(
                text,
                edits,
                places,
                i,
            ) == changes.changes@[i].new.start.value + carets@[i] && boundary(
                after,
                changes.changes@[i].new.start.value + carets@[i],
            ) by {
                let back = inverse_edits(text, 0, edits, 0)[i];
                assert(change_of(changes.changes@[i], edits[i], back));
                law_inserted_text_stands(text, edits, i);
                lemma_inner_range(after, back.start, back.end, carets@[i] as int);
            }
            assert forall|i: int| 0 <= i < carets@.len() implies boundary(
                after,
                (#[trigger] changes.changes@[i]).new.start.value + carets@[i],
            ) by {
                let place = caret_place(text, edits, places, i);
            }
        }
        let ranges = match carets_in(self.buffer.as_str(), &changes, &carets) {
            Some(ranges) => ranges,
            None => return Err(EditorDocumentError::Selection(SelectionError::InvalidRange)),
        };
        assert(ranges@ =~= Seq::new(
            places.len(),
            |i: int| caret_at(caret_place(text, edits, places, i)),
        ));
        match Selections::new(self.buffer.as_str(), ranges, primary) {
            Ok(selections) => Ok(Some(selections)),
            Err(error) => Err(EditorDocumentError::Selection(error)),
        }
    }

    /// Deletes backward at the start of a list item in a table, which moves the item out.
    /// `None` where the only selection is no caret at such a start.
    pub fn backspace_html_list_start(
        &mut self,
        regions: &Vec<HtmlModel>,
        origins: &Vec<ListSelection>,
        gaps: &Vec<ParsedGap>,
        selections: &Selections,
    ) -> (r: Result<Option<ListIndent>, EditorDocumentError>)
        requires
            old(self).buffer.revision.value < u64::MAX,
            selections.wf(old(self).buffer.text@),
            regions_wf(old(self).buffer.text@, regions@),
            origins_match(old(self).buffer.text@, regions@, origins@, *selections),
        ensures
            if starts_item(
                old(self).source_mode,
                old(self).buffer.text@,
                regions@,
                origins@,
            ) {
                &&& r != Ok::<Option<ListIndent>, EditorDocumentError>(None)
                &&& list_moved(
                    *old(self),
                    *final(self),
                    *selections,
                    command_groups(
                        false,
                        old(self).buffer.text@,
                        regions@,
                        origins@,
                        gaps@,
                        *selections,
                        false,
                    ),
                    selects_in_list(false, regions@, selections.ranges@),
                    match r {
                        Ok(moved) => Ok(moved->Some_0),
                        Err(error) => Err(error),
                    },
                )
            } else {
                &&& r == Ok::<Option<ListIndent>, EditorDocumentError>(None)
                &&& *final(self) == *old(self)
            },
    {
        if self.source_mode || origins.len() != 1 || !origins[0].selection.is_empty()
            || !origins[0].table_recognized {
            return Ok(None);
        }
        assert(origins@[0].wf(self.buffer.text@, regions@));
        let region = match origins[0].region {
            Some(region) => region,
            None => return Ok(None),
        };
        assert(regions@[region as int].wf(self.buffer.text@));
        let total = text_len(self.buffer.as_str());
        let focus = origins[0].selection.focus;
        proof {
            lemma_boundary_bounds(self.buffer.text@, focus.value as int);
        }
        let caret = focus.value as usize;
        if !at_html_list_content_start(self.buffer.as_str(), &regions[region], caret) {
            return Ok(None);
        }
        match self.change_html_list_indent(regions, origins, gaps, selections, false) {
            Ok(moved) => Ok(Some(moved)),
            Err(error) => Err(error),
        }
    }
}

/// Whether the only selection is a caret at the first place of an item in a table where
/// text can be typed.
pub open spec fn starts_item(
    source_mode: bool,
    text: Seq<char>,
    regions: Seq<HtmlModel>,
    origins: Seq<ListSelection>,
) -> bool {
    &&& !source_mode
    &&& origins.len() == 1
    &&& origins[0].selection.anchor == origins[0].selection.focus
    &&& origins[0].table_recognized
    &&& origins[0].region is Some
    &&& at_content_start(
        text,
        regions[origins[0].region->Some_0 as int],
        origins[0].selection.focus.value as int,
    )
}

} // verus!
