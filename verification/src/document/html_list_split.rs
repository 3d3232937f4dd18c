//! Splitting list items at every caret, and leaving a list from an empty item.
use crate::document::html_list::{
    exit_open, holds_block, holds_paragraph, html_list_outdent_at, in_table, item_at, item_body,
    list_items, list_parent, nested_head, outdent_at, place_of, split_left, ListPlan, ListPlanView,
};
use crate::document::html_list_groups::{
    compact_list_exits, compacted, lemma_inner_boundary, plan_views, trim_list_plan, trimmed_plan,
    ParsedGap,
};
use crate::document::html_list_plans::{html_list_split_markup, split_markup};
use crate::document::html_list_selection::regions_wf;
use crate::edit::{edit_views, ordered_edits, Edit, EditView};
use crate::grid::SourceSpan;
use crate::html::{span_wf, HtmlModel};
use crate::text::{
    boundary, byte_len, lemma_boundary_bounds, lemma_boundary_ends, lemma_boundary_left,
    lemma_boundary_right, lemma_encode_concat, lemma_span_bytes, lemma_span_seam, sliceable, span,
    text_len,
};
use vstd::prelude::*;
use vstd::utf8::*;

verus! {

/// One selection that is to be split at: its range, the HTML region of the table
/// around it, and what a plain line break would put there.
#[derive(Debug)]
pub struct SplitInput {
    pub range: SourceSpan,
    pub region: Option<usize>,
    pub fallback: String,
    pub fallback_caret: usize,
}

impl SplitInput {
    /// Whether the selection addresses `text` and an existing region.
    pub open spec fn wf(self, text: Seq<char>, regions: Seq<HtmlModel>) -> bool {
        &&& span_wf(text, self.range)
        &&& self.region matches Some(region) ==> region < regions.len()
        &&& boundary(self.fallback@, self.fallback_caret as int)
    }
}

/// What happens at one selection.
pub struct SplitChoice {
    pub plan: ListPlanView,
    /// Whether the caret leaves its list.
    pub exit: bool,
    /// Whether list markup changes.
    pub structural: bool,
}

/// What happens at one selection: a caret in an empty item leaves the list if
/// `allow_exit` is set; in another item it splits the item; elsewhere the line
/// breaks.
pub open spec fn split_choice(
    text: Seq<char>,
    regions: Seq<HtmlModel>,
    input: SplitInput,
    allow_exit: bool,
) -> SplitChoice {
    let caret = input.range.start as int;
    let plain = SplitChoice {
        plan: ListPlanView {
            range: input.range,
            text: input.fallback@,
            caret: input.fallback_caret as int,
        },
        exit: false,
        structural: false,
    };
    match input.region {
        Some(region) if input.range.start == input.range.end => {
            let model = regions[region as int];
            match outdent_at(text, model, caret, true) {
                Some(plan) if allow_exit => SplitChoice {
                    plan: trimmed_plan(text, plan),
                    exit: true,
                    structural: true,
                },
                _ => match split_markup(text, model, caret) {
                    Some(markup) => SplitChoice {
                        plan: ListPlanView {
                            range: input.range,
                            text: markup,
                            caret: byte_len(markup),
                        },
                        exit: false,
                        structural: true,
                    },
                    None => plain,
                },
            }
        },
        _ => plain,
    }
}

/// What happens at every selection.
#[derive(Debug)]
pub struct SplitPlans {
    pub plans: Vec<ListPlan>,
    pub exits: Vec<bool>,
    pub structural: bool,
}

proof fn lemma_caret_in_slice(
    head: Seq<char>,
    text: Seq<char>,
    start: int,
    end: int,
    at: int,
    tail: Seq<char>,
)
    requires
        sliceable(text, start, end),
        start <= at <= end,
        boundary(text, at),
    ensures
        boundary(head + span(text, start, end) + tail, byte_len(head) + at - start),
{
    let part = span(text, start, end);
    lemma_inner_boundary(text, start, end, at);
    lemma_span_bytes(text, start, end);
    lemma_boundary_right(head, part, at - start);
    lemma_encode_concat(head, part);
    lemma_boundary_left(head + part, tail, byte_len(head) + at - start);
}

/// A plan to leave an item puts the caret between two characters.
pub proof fn lemma_outdent_caret(text: Seq<char>, model: HtmlModel, caret: int, require_empty: bool)
    requires
        model.wf(text),
        boundary(text, caret),
        0 <= caret,
    ensures
        outdent_at(text, model, caret, require_empty) matches Some(plan) ==> boundary(
            plan.text,
            plan.caret,
        ) && span_wf(text, plan.range),
{
    if let Some(plan) = outdent_at(text, model, caret, require_empty) {
        let nodes = model.nodes@;
        let item = item_at(model, caret)->0;
        crate::document::html_list::lemma_item_at(model, caret, nodes.len() as int);
        let list = nodes[item as int].parent->0;
        let place = place_of(list_items(model, list as int), item)->0;
        assert(nodes[item as int].wf(text));
        assert(nodes[item as int].parent matches Some(p) ==> p < item);
        assert(nodes[list as int].wf(text));
        assert(nodes[list as int].encloses(nodes[item as int].source));
        let (open, close) = nodes[item as int].tags()->0;
        match list_parent(model, list as int) {
            Some((parent, wrappers)) => {
                crate::document::html_list::lemma_list_parent(text, model, list as int);
                assert(nodes[parent as int].wf(text));
                let head = nested_head(
                    text,
                    model,
                    list as int,
                    item as int,
                    place,
                    parent,
                    wrappers,
                );
                let part = span(
                    text,
                    nodes[item as int].source.start as int,
                    close.source.start as int,
                );
                let rest = plan.text.skip((head + part).len() as int);
                assert(plan.text =~= head + part + rest);
                lemma_caret_in_slice(
                    head,
                    text,
                    nodes[item as int].source.start as int,
                    close.source.start as int,
                    caret,
                    rest,
                );
            },
            None => {
                let block = holds_block(model, nodes[item as int]);
                let wrap = !block || open.attributes@.len() > 0 || !in_table(model, caret);
                let added = require_empty && block && !holds_paragraph(model, nodes[item as int]);
                let left = split_left(
                    text,
                    nodes[list as int],
                    nodes[item as int].source.start as int,
                    place > 0,
                );
                let head = left + exit_open(text, nodes[item as int], block, wrap);
                let body = item_body(text, nodes[item as int]);
                if added {
                    let front = head + body + "<p>"@;
                    let rest = plan.text.skip(front.len() as int);
                    assert(plan.text =~= front + rest);
                    lemma_span_seam(front, rest);
                } else {
                    let rest = plan.text.skip((head + body).len() as int);
                    assert(plan.text =~= head + body + rest);
                    lemma_caret_in_slice(
                        head,
                        text,
                        open.source.end as int,
                        close.source.start as int,
                        caret,
                        rest,
                    );
                }
            },
        }
    }
}

fn choose_split(source: &str, regions: &Vec<HtmlModel>, input: &SplitInput, allow_exit: bool) -> (r: (
    ListPlan,
    bool,
    bool,
))
    requires
        regions_wf(source@, regions@),
        input.wf(source@, regions@),
    ensures
        ({
            let choice = split_choice(source@, regions@, *input, allow_exit);
            &&& r.0@ == choice.plan
            &&& r.1 == choice.exit
            &&& r.2 == choice.structural
            &&& span_wf(source@, r.0.range)
            &&& boundary(r.0.text@, r.0.caret as int)
        }),
{
    if input.range.start == input.range.end {
        if let Some(region) = input.region {
            let model = &regions[region];
            assert(regions@[region as int].wf(source@));
            let caret = input.range.start;
            if allow_exit {
                if let Some(plan) = html_list_outdent_at(source, model, caret, true) {
                    proof {
                        lemma_boundary_bounds(source@, caret as int);
                        lemma_outdent_caret(source@, *model, caret as int, true);
                    }
                    return (trim_list_plan(source, plan), true, true);
                }
            }
            if let Some(markup) = html_list_split_markup(source, model, caret) {
                let target = text_len(markup.as_str());
                proof {
                    lemma_boundary_ends(markup@);
                }
                return (ListPlan { range: input.range, text: markup, caret: target }, false, true);
            }
        }
    }
    (
        ListPlan {
            range: input.range,
            text: input.fallback.clone(),
            caret: input.fallback_caret,
        },
        false,
        false,
    )
}

/// Decides what happens at every selection. With `allow_exit`, carets in empty
/// items leave their lists.
pub fn split_html_list_items(
    source: &str,
    regions: &Vec<HtmlModel>,
    inputs: &Vec<SplitInput>,
    allow_exit: bool,
) -> (r: SplitPlans)
    requires
        regions_wf(source@, regions@),
        forall|i: int| 0 <= i < inputs@.len() ==> (#[trigger] inputs@[i]).wf(source@, regions@),
    ensures
        r.plans@.len() == inputs@.len(),
        r.exits@.len() == inputs@.len(),
        forall|i: int|
            0 <= i < inputs@.len() ==> {
                let choice = split_choice(
                    source@,
                    regions@,
                    #[trigger] inputs@[i],
                    allow_exit,
                );
                &&& r.plans@[i]@ == choice.plan
                &&& r.exits@[i] == choice.exit
                &&& span_wf(source@, r.plans@[i].range)
            },
        r.structural <==> exists|i: int|
            0 <= i < inputs@.len() && split_choice(
                source@,
                regions@,
                #[trigger] inputs@[i],
                allow_exit,
            ).structural,
{
    let mut plans: Vec<ListPlan> = Vec::new();
    let mut exits: Vec<bool> = Vec::new();
    let mut structural = false;
    let mut i: usize = 0;
    while i < inputs.len()
        invariant
            regions_wf(source@, regions@),
            forall|i: int|
                0 <= i < inputs@.len() ==> (#[trigger] inputs@[i]).wf(source@, regions@),
            i <= inputs@.len(),
            plans@.len() == i,
            exits@.len() == i,
            forall|k: int|
                0 <= k < i ==> {
                    let choice = split_choice(
                        source@,
                        regions@,
                        #[trigger] inputs@[k],
                        allow_exit,
                    );
                    &&& plans@[k]@ == choice.plan
                    &&& exits@[k] == choice.exit
                    &&& span_wf(source@, plans@[k].range)
                },
            structural <==> exists|k: int|
                0 <= k < i && split_choice(
                    source@,
                    regions@,
                    #[trigger] inputs@[k],
                    allow_exit,
                ).structural,
        decreases inputs@.len() - i,
    {
        assert(inputs@[i as int].wf(source@, regions@));
        let (plan, exit, changed) = choose_split(source, regions, &inputs[i], allow_exit);
        plans.push(plan);
        exits.push(exit);
        structural = structural || changed;
        i += 1;
    }
    SplitPlans { plans, exits, structural }
}

/// The edits of plans.
pub open spec fn plan_edits(plans: Seq<ListPlanView>) -> Seq<EditView> {
    plans.map_values(
        |p: ListPlanView|
            EditView { start: p.range.start as int, end: p.range.end as int, text: p.text },
    )
}

/// Whether a plan overlaps the one behind it.
pub open spec fn plans_overlap(plans: Seq<ListPlanView>) -> bool {
    exists|i: int|
        0 <= i < plans.len() - 1 && (#[trigger] plans[i]).range.end > plans[i + 1].range.start
}

/// One edit per selection, with the caret's place in each replacement.
#[derive(Debug)]
pub struct SplitEdits {
    pub edits: Vec<Edit>,
    pub carets: Vec<usize>,
}

/// Joins neighbouring exits and gives one edit per selection. `gaps` holds what was read
/// of the stretches between the plans. `None` where no markup changes, or where plans overlap: then the
/// selections are to be split without leaving lists.
pub fn finish_html_list_split(source: &str, splits: SplitPlans, gaps: &Vec<ParsedGap>) -> (r: Option<
    SplitEdits,
>)
    requires
        splits.exits@.len() == splits.plans@.len(),
        forall|i: int|
            0 <= i < splits.plans@.len() ==> span_wf(
                source@,
                (#[trigger] splits.plans@[i]).range,
            ),
    ensures
        ({
            let plans = compacted(
                source@,
                plan_views(splits.plans@),
                splits.exits@,
                gaps@,
                splits.plans@.len() as int,
            );
            match r {
                Some(made) => {
                    &&& splits.structural
                    &&& !plans_overlap(plans)
                    &&& edit_views(made.edits@) == plan_edits(plans)
                    &&& ordered_edits(source@, edit_views(made.edits@))
                    &&& made.carets@.len() == plans.len()
                    &&& forall|i: int|
                        0 <= i < plans.len() ==> (#[trigger] made.carets@[i]) == plans[i].caret
                },
                None => !splits.structural || plans_overlap(plans),
            }
        }),
{
    let mut plans = splits.plans;
    compact_list_exits(source, &mut plans, &splits.exits, gaps);
    if !splits.structural {
        return None;
    }
    let ghost views = plan_views(plans@);
    let mut edits: Vec<Edit> = Vec::new();
    let mut carets: Vec<usize> = Vec::new();
    let mut i: usize = 0;
    while i < plans.len()
        invariant
            views == plan_views(plans@),
            views == compacted(
                source@,
                plan_views(splits.plans@),
                splits.exits@,
                gaps@,
                splits.plans@.len() as int,
            ),
            forall|k: int| 0 <= k < plans@.len() ==> span_wf(source@, (#[trigger] plans@[k]).range),
            i <= plans@.len(),
            edits@.len() == i,
            carets@.len() == i,
            forall|k: int| 0 <= k < i ==> (#[trigger] edits@[k])@ == plan_edits(views)[k],
            forall|k: int| 0 <= k < i ==> (#[trigger] carets@[k]) == views[k].caret,
            forall|a: int, b: int|
                #![trigger views[a], views[b]]
                0 <= a < b < i ==> views[a].range.end <= views[b].range.start,
        decreases plans@.len() - i,
    {
        let plan = &plans[i];
        assert(views[i as int] == plan@);
        assert(span_wf(source@, plans@[i as int].range));
        if i > 0 && plans[i - 1].range.end > plan.range.start {
            proof {
                assert(views[i - 1] == plans@[i - 1]@);
                assert(views[i - 1].range.end > views[i - 1 + 1].range.start);
            }
            return None;
        }
        proof {
            assert forall|a: int| 0 <= a < i implies (#[trigger] views[a]).range.end
                <= views[i as int].range.start by {
                assert(views[i - 1] == plans@[i - 1]@);
                if a < i - 1 {
                    assert(views[a].range.end <= views[i - 1].range.start);
                    assert(span_wf(source@, plans@[i - 1].range));
                }
            }
        }
        edits.push(Edit::replace(plan.range.start, plan.range.end, plan.text.clone()));
        carets.push(plan.caret);
        i += 1;
    }
    assert(!plans_overlap(views)) by {
        if plans_overlap(views) {
            let k = choose|k: int|
                0 <= k < views.len() - 1 && (#[trigger] views[k]).range.end > views[k
                    + 1].range.start;
            assert(views[k].range.end <= views[k + 1].range.start);
        }
    }
    proof {
        assert(edit_views(edits@) =~= plan_edits(views));
        let made = edit_views(edits@);
        assert forall|k: int| 0 <= k < made.len() implies sliceable(
            source@,
            (#[trigger] made[k]).start,
            made[k].end,
        ) by {
            assert(views[k] == plans@[k]@);
            assert(span_wf(source@, plans@[k].range));
        }
        assert forall|a: int, b: int|
            #![trigger made[a], made[b]]
            0 <= a < b < made.len() implies made[a].end <= made[b].start by {
            assert(views[a].range.end <= views[b].range.start);
        }
    }
    Some(SplitEdits { edits, carets })
}

/// A line break outside of lists, or over a selected range, is an ordinary one: it replaces
/// the selection by what was planned for it there. With exits not allowed no caret leaves
/// its list, and a caret that leaves one changes markup.
pub proof fn law_line_break_outside_of_lists(
    text: Seq<char>,
    regions: Seq<HtmlModel>,
    input: SplitInput,
    allow_exit: bool,
)
    ensures
        ({
            let choice = split_choice(text, regions, input, allow_exit);
            &&& input.region is None || input.range.start != input.range.end ==> !choice.structural
                && !choice.exit && choice.plan.range == input.range && choice.plan.text
                == input.fallback@ && choice.plan.caret == input.fallback_caret
            &&& !choice.structural ==> choice.plan.text == input.fallback@ && choice.plan.range
                == input.range
            &&& !allow_exit ==> !choice.exit
            &&& choice.exit ==> choice.structural
            &&& choice.structural && !choice.exit ==> choice.plan.range == input.range
                && choice.plan.caret == byte_len(choice.plan.text)
        }),
{
}

} // verus!
