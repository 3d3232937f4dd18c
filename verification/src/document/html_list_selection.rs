//! Which items a set of selections moves together, and by which edits.
use crate::document::html_list::{
    editable_at, element_tags, find_place, html_list_outdent_at, is_item, is_named, list_items,
    list_parent, list_parent_through_divs, list_selection_span, native_list_model, collect_items,
    outdent_at, place_of, plan_view, selection_span, span_ok, ListPlan, ListPlanView, ListSpan,
};
use crate::document::html_list_groups::{trim_bounds, trim_prefix, trim_suffix};
use crate::document::html_list_plans::{
    html_list_indent_for, indent_plan, is_under_item, lemma_root_exit, open_end, root_exit,
    root_html_list_outdent_with_points, selected_html_list_outdent_for, selected_outdent,
    under_item, PointsPlanView,
};
use crate::grid::SourceSpan;
use crate::html::{span_contains, span_in, span_wf, HtmlModel};
use crate::offset::TextRange;
use crate::selection::{CaretAffinity, EditorSelection, Selections};
use crate::text::{
    boundary, byte_len, get, lemma_boundary_bounds, lemma_boundary_ends, lemma_span_bytes, slice,
    span, text_len,
};
use vstd::multiset::Multiset;
use vstd::prelude::*;

verus! {

/// A selection with the HTML region that it starts in, if any, and whether the
/// table around it, if any, was recognized.
#[derive(Clone, Copy, Debug, PartialEq, Eq, Structural)]
pub struct ListSelection {
    pub selection: EditorSelection,
    pub region: Option<usize>,
    pub table_recognized: bool,
}

impl ListSelection {
    /// The first selected offset.
    pub open spec fn start(self) -> int {
        self.selection.ordered().start.value as int
    }

    /// The offset behind the selection.
    pub open spec fn end(self) -> int {
        self.selection.ordered().end.value as int
    }

    /// Whether the selection addresses `text` and an existing region.
    pub open spec fn wf(self, text: Seq<char>, regions: Seq<HtmlModel>) -> bool {
        self.selection.wf(text) && (self.region matches Some(region) ==> region < regions.len())
    }
}

/// Whether every region addresses `text`.
pub open spec fn regions_wf(text: Seq<char>, regions: Seq<HtmlModel>) -> bool {
    forall|i: int| 0 <= i < regions.len() ==> (#[trigger] regions[i]).wf(text)
}

/// The items that a selection spans, where lists can be edited.
pub open spec fn origin_span(regions: Seq<HtmlModel>, origin: ListSelection) -> Option<ListSpan> {
    match origin.region {
        Some(region) if editable_at(
            regions[region as int],
            origin.start(),
            origin.table_recognized,
        ) => selection_span(regions[region as int], origin.start(), origin.end()),
        _ => None,
    }
}

/// The source of the items from `first` to `last`.
pub open spec fn coverage(model: HtmlModel, span_: ListSpan) -> SourceSpan {
    SourceSpan {
        start: model.nodes@[span_.first as int].source.start,
        end: model.nodes@[span_.last as int].source.end,
    }
}

fn find_span(source: &str, regions: &Vec<HtmlModel>, origin: ListSelection) -> (r: Option<ListSpan>)
    requires
        regions_wf(source@, regions@),
        origin.wf(source@, regions@),
    ensures
        r == origin_span(regions@, origin),
        r matches Some(span_) ==> origin.region is Some && span_ok(
            regions@[origin.region->0 as int],
            span_,
            origin.start(),
            origin.end(),
        ),
{
    let length = text_len(source);
    let range = origin.selection.ordered_range();
    proof {
        lemma_boundary_bounds(source@, origin.start());
        lemma_boundary_bounds(source@, origin.end());
    }
    let region = origin.region?;
    let model = &regions[region];
    assert(regions@[region as int].wf(source@));
    let start = range.start.value as usize;
    let end = range.end.value as usize;
    if !native_list_model(model, start, origin.table_recognized) {
        return None;
    }
    list_selection_span(source, model, start, end)
}

/// Whether an item lies around a caret, or shares a byte with a selected range.
pub open spec fn touches_item(model: HtmlModel, range: TextRange) -> bool {
    exists|n: int|
        0 <= n < model.nodes@.len() && is_item(#[trigger] model.nodes@[n]) && overlaps(
            model.nodes@[n].source,
            range,
        )
}

/// Whether `source` lies around an empty range, or shares a byte with another.
pub open spec fn overlaps(source: SourceSpan, range: TextRange) -> bool {
    if range.start == range.end {
        source.start <= range.start.value <= source.end
    } else {
        source.start < range.end.value && range.start.value < source.end
    }
}

/// Whether a selection touches an item of any region.
pub open spec fn touches_list(regions: Seq<HtmlModel>, range: TextRange) -> bool {
    exists|i: int| 0 <= i < regions.len() && touches_item(#[trigger] regions[i], range)
}

/// Whether the selection touches an item of any region.
pub fn touches_html_list(regions: &Vec<HtmlModel>, selection: EditorSelection) -> (r: bool)
    ensures
        r == touches_list(regions@, selection.ordered()),
{
    let range = selection.ordered_range();
    let mut i: usize = 0;
    while i < regions.len()
        invariant
            range == selection.ordered(),
            i <= regions@.len(),
            forall|k: int| 0 <= k < i ==> !touches_item(#[trigger] regions@[k], range),
        decreases regions@.len() - i,
    {
        let model = &regions[i];
        let mut n: usize = 0;
        while n < model.nodes.len()
            invariant
                range == selection.ordered(),
                i < regions@.len(),
                *model == regions@[i as int],
                n <= model.nodes@.len(),
                forall|k: int|
                    0 <= k < n ==> !(is_item(#[trigger] model.nodes@[k]) && overlaps(
                        model.nodes@[k].source,
                        range,
                    )),
            decreases model.nodes@.len() - n,
        {
            let node = &model.nodes[n];
            let over = if range.is_empty() {
                node.source.start as u64 <= range.start.value && range.start.value
                    <= node.source.end as u64
            } else {
                (node.source.start as u64) < range.end.value && range.start.value
                    < node.source.end as u64
            };
            if over && is_named(node, "li") {
                assert(is_item(model.nodes@[n as int]));
                assert(touches_item(regions@[i as int], range));
                return true;
            }
            n += 1;
        }
        assert(!touches_item(regions@[i as int], range));
        i += 1;
    }
    false
}

/// Whether any selection touches an item, where lists are shown as such.
pub open spec fn selects_in_list(
    source_mode: bool,
    regions: Seq<HtmlModel>,
    ranges: Seq<EditorSelection>,
) -> bool {
    !source_mode && exists|i: int|
        0 <= i < ranges.len() && touches_list(regions, (#[trigger] ranges[i]).ordered())
}

/// Whether any selection touches an item. Then a failed list command must not be
/// taken for one on plain text. In source mode there are no items.
pub fn has_html_list_selection(
    source_mode: bool,
    regions: &Vec<HtmlModel>,
    selections: &Selections,
) -> (r: bool)
    ensures
        r == selects_in_list(source_mode, regions@, selections.ranges@),
{
    if source_mode {
        return false;
    }
    let mut i: usize = 0;
    while i < selections.ranges.len()
        invariant
            !source_mode,
            i <= selections.ranges@.len(),
            forall|k: int|
                0 <= k < i ==> !touches_list(
                    regions@,
                    (#[trigger] selections.ranges@[k]).ordered(),
                ),
        decreases selections.ranges@.len() - i,
    {
        if touches_html_list(regions, selections.ranges[i]) {
            assert(touches_list(regions@, selections.ranges@[i as int].ordered()));
            return true;
        }
        i += 1;
    }
    false
}

/// Whether two runs of items of one list meet or overlap.
pub open spec fn runs_meet(items: Seq<usize>, a: ListSpan, b: ListSpan) -> bool {
    match (
        place_of(items, a.first),
        place_of(items, a.last),
        place_of(items, b.first),
        place_of(items, b.last),
    ) {
        (Some(a_first), Some(a_last), Some(b_first), Some(b_last)) => b_first <= a_last + 1
            && a_first <= b_last + 1,
        _ => false,
    }
}

/// The selection from the start of the earlier to the end of the later one.
pub open spec fn hull(left: ListSelection, right: ListSelection) -> ListSelection {
    let l = left.selection.ordered();
    let r = right.selection.ordered();
    ListSelection {
        selection: EditorSelection {
            anchor: if l.start.value <= r.start.value {
                l.start
            } else {
                r.start
            },
            focus: if l.end.value >= r.end.value {
                l.end
            } else {
                r.end
            },
            affinity: CaretAffinity::Downstream,
        },
        region: left.region,
        table_recognized: if l.start.value <= r.start.value {
            left.table_recognized
        } else {
            right.table_recognized
        },
    }
}

/// The selection that stands for two that move together: the items of one lie
/// inside those of the other, or both are runs of one list that meet.
pub open spec fn merged_origins(
    regions: Seq<HtmlModel>,
    left: ListSelection,
    right: ListSelection,
) -> Option<ListSelection> {
    match (origin_span(regions, left), origin_span(regions, right)) {
        (Some(a), Some(b)) => if left.region != right.region {
            None
        } else {
            let model = regions[left.region->0 as int];
            let ca = coverage(model, a);
            let cb = coverage(model, b);
            if span_in(ca, cb) || span_in(cb, ca) || (a.list == b.list && runs_meet(
                list_items(model, a.list as int),
                a,
                b,
            )) {
                Some(hull(left, right))
            } else {
                None
            }
        },
        _ => None,
    }
}

fn hull_of(left: ListSelection, right: ListSelection) -> (r: ListSelection)
    ensures
        r == hull(left, right),
        forall|text: Seq<char>|
            left.selection.wf(text) && right.selection.wf(text) ==> #[trigger] r.selection.wf(text),
{
    let l = left.selection.ordered_range();
    let r = right.selection.ordered_range();
    ListSelection {
        selection: EditorSelection {
            anchor: if l.start.value <= r.start.value {
                l.start
            } else {
                r.start
            },
            focus: if l.end.value >= r.end.value {
                l.end
            } else {
                r.end
            },
            affinity: CaretAffinity::Downstream,
        },
        region: left.region,
        table_recognized: if l.start.value <= r.start.value {
            left.table_recognized
        } else {
            right.table_recognized
        },
    }
}

fn runs_touch(items: &Vec<usize>, a: ListSpan, b: ListSpan) -> (r: bool)
    ensures
        r == runs_meet(items@, a, b),
{
    let count = items.len();
    match (
        find_place(items, a.first),
        find_place(items, a.last),
        find_place(items, b.first),
        find_place(items, b.last),
    ) {
        (Some(a_first), Some(a_last), Some(b_first), Some(b_last)) => b_first <= a_last + 1
            && a_first <= b_last + 1,
        _ => false,
    }
}

/// Finds the selection that stands for two that move together.
pub fn merge_list_origins(
    source: &str,
    regions: &Vec<HtmlModel>,
    left: ListSelection,
    right: ListSelection,
) -> (r: Option<ListSelection>)
    requires
        regions_wf(source@, regions@),
        left.wf(source@, regions@),
        right.wf(source@, regions@),
    ensures
        r == merged_origins(regions@, left, right),
        r matches Some(made) ==> made.wf(source@, regions@),
{
    let ghost text = source@;
    let a = find_span(source, regions, left)?;
    let b = find_span(source, regions, right)?;
    let region = left.region?;
    let other = right.region?;
    if region != other {
        return None;
    }
    let model = &regions[region];
    assert(regions@[region as int].wf(text));
    let ca = SourceSpan::new(model.nodes[a.first].source.start, model.nodes[a.last].source.end);
    let cb = SourceSpan::new(model.nodes[b.first].source.start, model.nodes[b.last].source.end);
    if !span_contains(ca, cb) && !span_contains(cb, ca) {
        if a.list != b.list {
            return None;
        }
        let items = collect_items(Ghost(text), model, a.list);
        if !runs_touch(&items, a, b) {
            return None;
        }
    }
    Some(hull_of(left, right))
}

/// A selection of a group, by its place among all selections.
#[derive(Clone, Copy, Debug, PartialEq, Eq, Structural)]
pub struct GroupMember {
    pub index: usize,
    pub selection: EditorSelection,
}

/// Selections that move together. Each endpoint is relative to the replacement.
#[derive(Debug)]
pub struct HtmlIndentGroup {
    pub range: SourceSpan,
    /// The range before unchanged bytes were left out.
    pub merge_range: SourceSpan,
    pub text: String,
    pub members: Vec<GroupMember>,
    pub offsets: Vec<(usize, usize)>,
}

/// What an [`HtmlIndentGroup`] says.
pub struct GroupView {
    pub range: SourceSpan,
    pub merge_range: SourceSpan,
    pub text: Seq<char>,
    pub members: Seq<GroupMember>,
    pub offsets: Seq<(usize, usize)>,
}

impl View for HtmlIndentGroup {
    type V = GroupView;

    open spec fn view(&self) -> GroupView {
        GroupView {
            range: self.range,
            merge_range: self.merge_range,
            text: self.text@,
            members: self.members@,
            offsets: self.offsets@,
        }
    }
}

/// The smallest endpoint of the first `count`.
pub open spec fn least_offset(offsets: Seq<(usize, usize)>, count: int) -> Option<usize>
    decreases count,
{
    if count <= 0 {
        None
    } else {
        let (a, f) = offsets[count - 1];
        let here = if a < f {
            a
        } else {
            f
        };
        match least_offset(offsets, count - 1) {
            Some(best) if best <= here => Some(best),
            _ => Some(here),
        }
    }
}

/// The greatest endpoint of the first `count`.
pub open spec fn greatest_offset(offsets: Seq<(usize, usize)>, count: int) -> Option<usize>
    decreases count,
{
    if count <= 0 {
        None
    } else {
        let (a, f) = offsets[count - 1];
        let here = if a > f {
            a
        } else {
            f
        };
        match greatest_offset(offsets, count - 1) {
            Some(best) if best >= here => Some(best),
            _ => Some(here),
        }
    }
}

/// Whether every endpoint is a boundary of the replacement.
pub open spec fn offsets_fit(text: Seq<char>, offsets: Seq<(usize, usize)>) -> bool {
    forall|i: int|
        0 <= i < offsets.len() ==> boundary(text, (#[trigger] offsets[i]).0 as int) && boundary(
            text,
            offsets[i].1 as int,
        )
}

/// The group without the bytes that it leaves as they are around its endpoints.
pub open spec fn trimmed_group(text: Seq<char>, group: GroupView) -> Option<GroupView> {
    let count = group.offsets.len() as int;
    let original = span(text, group.range.start as int, group.range.end as int);
    let floor = match least_offset(group.offsets, count) {
        Some(at) => at as int,
        None => 0,
    };
    let ceiling = match greatest_offset(group.offsets, count) {
        Some(at) => at as int,
        None => byte_len(group.text),
    };
    let prefix = trim_prefix(original, group.text, floor);
    let suffix = trim_suffix(original, group.text, floor, ceiling);
    if !span_wf(text, group.range) || !offsets_fit(group.text, group.offsets) {
        None
    } else {
        Some(
            GroupView {
                range: SourceSpan {
                    start: (group.range.start + prefix) as usize,
                    end: (group.range.end - suffix) as usize,
                },
                merge_range: group.merge_range,
                text: span(group.text, prefix, byte_len(group.text) - suffix),
                members: group.members,
                offsets: group.offsets.map_values(
                    |o: (usize, usize)| ((o.0 - prefix) as usize, (o.1 - prefix) as usize),
                ),
            },
        )
    }
}

proof fn lemma_offset_bounds(offsets: Seq<(usize, usize)>, text: Seq<char>, count: int)
    requires
        0 <= count <= offsets.len(),
        offsets_fit(text, offsets),
    ensures
        least_offset(offsets, count) is Some <==> count > 0,
        greatest_offset(offsets, count) is Some <==> count > 0,
        least_offset(offsets, count) matches Some(low) ==> boundary(text, low as int) && (
        greatest_offset(offsets, count) matches Some(high) && low <= high && boundary(
            text,
            high as int,
        )),
        forall|i: int|
            0 <= i < count ==> least_offset(offsets, count)->0 <= (#[trigger] offsets[i]).0
                && least_offset(offsets, count)->0 <= offsets[i].1,
    decreases count,
{
    if count > 0 {
        lemma_offset_bounds(offsets, text, count - 1);
        assert(boundary(text, offsets[count - 1].0 as int));
    }
}

fn trim_group(source: &str, group: HtmlIndentGroup) -> (r: Option<HtmlIndentGroup>)
    ensures
        match r {
            Some(made) => trimmed_group(source@, group@) == Some(made@) && span_wf(
                source@,
                made.range,
            ),
            None => trimmed_group(source@, group@) is None,
        },
{
    let original = match get(source, group.range.start, group.range.end) {
        Some(original) => original,
        None => {
            return None;
        },
    };
    let text = group.text.as_str();
    let length = text_len(text);
    let mut low: Option<usize> = None;
    let mut high: Option<usize> = None;
    let mut i: usize = 0;
    while i < group.offsets.len()
        invariant
            text@ == group.text@,
            i <= group.offsets@.len(),
            low == least_offset(group.offsets@, i as int),
            high == greatest_offset(group.offsets@, i as int),
            forall|k: int|
                0 <= k < i ==> boundary(text@, (#[trigger] group.offsets@[k]).0 as int) && boundary(
                    text@,
                    group.offsets@[k].1 as int,
                ),
        decreases group.offsets@.len() - i,
    {
        let (a, f) = group.offsets[i];
        if !text.is_char_boundary(a) || !text.is_char_boundary(f) {
            assert(!(boundary(text@, group.offsets@[i as int].0 as int) && boundary(
                text@,
                group.offsets@[i as int].1 as int,
            )));
            return None;
        }
        let least: usize = if a < f {
            a
        } else {
            f
        };
        let greatest: usize = if a > f {
            a
        } else {
            f
        };
        low = match low {
            Some(best) => if best <= least {
                Some(best)
            } else {
                Some(least)
            },
            None => Some(least),
        };
        high = match high {
            Some(best) => if best >= greatest {
                Some(best)
            } else {
                Some(greatest)
            },
            None => Some(greatest),
        };
        i += 1;
    }
    let floor: usize = match low {
        Some(at) => at,
        None => 0,
    };
    let ceiling: usize = match high {
        Some(at) => at,
        None => length,
    };
    proof {
        lemma_offset_bounds(group.offsets@, text@, group.offsets@.len() as int);
        lemma_boundary_ends(text@);
    }
    let (prefix, suffix) = trim_bounds(original, text, floor, ceiling);
    proof {
        lemma_span_bytes(source@, group.range.start as int, group.range.end as int);
        lemma_boundary_bounds(original@, byte_len(original@) - suffix);
        crate::document::html_list_groups::lemma_inner_range(
            source@,
            group.range.start as int,
            group.range.end as int,
            prefix as int,
        );
        crate::document::html_list_groups::lemma_inner_range(
            source@,
            group.range.start as int,
            group.range.end as int,
            byte_len(original@) - suffix,
        );
    }
    let kept = slice(text, prefix, length - suffix).to_owned();
    let mut offsets: Vec<(usize, usize)> = Vec::new();
    let mut k: usize = 0;
    while k < group.offsets.len()
        invariant
            k <= group.offsets@.len(),
            offsets@.len() == k,
            forall|j: int|
                0 <= j < group.offsets@.len() ==> prefix <= (#[trigger] group.offsets@[j]).0
                    && prefix <= group.offsets@[j].1,
            forall|j: int|
                0 <= j < k ==> (#[trigger] offsets@[j]) == (
                    (group.offsets@[j].0 - prefix) as usize,
                    (group.offsets@[j].1 - prefix) as usize,
                ),
        decreases group.offsets@.len() - k,
    {
        let (a, f) = group.offsets[k];
        assert(prefix <= group.offsets@[k as int].0);
        offsets.push((a - prefix, f - prefix));
        k += 1;
    }
    let made = HtmlIndentGroup {
        range: SourceSpan {
            start: group.range.start + prefix,
            end: group.range.end - suffix,
        },
        merge_range: group.merge_range,
        text: kept,
        members: group.members,
        offsets,
    };
    assert(made.offsets@ =~= trimmed_group(source@, group@)->0.offsets);
    Some(made)
}

/// The endpoints of the members: anchor and focus of each in turn.
pub open spec fn points_of(members: Seq<GroupMember>) -> Seq<usize> {
    Seq::new(
        (2 * members.len()) as nat,
        |i: int|
            if i % 2 == 0 {
                members[i / 2].selection.anchor.value as usize
            } else {
                members[i / 2].selection.focus.value as usize
            },
    )
}

/// Whether every member's selection addresses `text`.
pub open spec fn members_wf(text: Seq<char>, members: Seq<GroupMember>) -> bool {
    forall|i: int| 0 <= i < members.len() ==> (#[trigger] members[i]).selection.wf(text)
}

fn collect_points(source: &str, members: &Vec<GroupMember>) -> (r: Vec<usize>)
    requires
        members_wf(source@, members@),
    ensures
        r@ == points_of(members@),
{
    let length = text_len(source);
    let mut points: Vec<usize> = Vec::new();
    let mut i: usize = 0;
    while i < members.len()
        invariant
            length == byte_len(source@),
            members_wf(source@, members@),
            i <= members@.len(),
            points@.len() == 2 * i,
            forall|k: int| 0 <= k < points@.len() ==> points@[k] == points_of(members@)[k],
        decreases members@.len() - i,
    {
        let selection = members[i].selection;
        proof {
            assert(members@[i as int].selection.wf(source@));
            lemma_boundary_bounds(source@, selection.anchor.value as int);
            lemma_boundary_bounds(source@, selection.focus.value as int);
            assert((2 * i) % 2 == 0 && (2 * i) / 2 == i as int);
            assert((2 * i + 1) % 2 == 1 && (2 * i + 1) / 2 == i as int);
        }
        points.push(selection.anchor.value as usize);
        points.push(selection.focus.value as usize);
        i += 1;
    }
    assert(points@ =~= points_of(members@));
    points
}

/// Where points of the source stand in a replacement that puts `reference` at
/// `caret` and keeps what lies around it.
pub open spec fn shifted(points: Seq<usize>, caret: int, reference: int) -> Option<Seq<int>> {
    if forall|i: int|
        0 <= i < points.len() ==> 0 <= caret + (#[trigger] points[i]) - reference <= usize::MAX {
        Some(Seq::new(points.len(), |i: int| caret + points[i] - reference))
    } else {
        None
    }
}

/// A plan with all its points shifted.
pub open spec fn with_points(plan: Option<ListPlanView>, points: Seq<usize>, reference: int) -> Option<
    PointsPlanView,
> {
    match plan {
        Some(plan) => match shifted(points, plan.caret, reference) {
            Some(points) => Some(PointsPlanView { range: plan.range, text: plan.text, points }),
            None => None,
        },
        None => None,
    }
}

/// How the items around `origin` move, with the places of `points`. Several items
/// of an outermost list leave it together; a single item moves with all that is
/// in it, wherever in it the caret stands.
pub open spec fn moved_items(
    text: Seq<char>,
    regions: Seq<HtmlModel>,
    origin: ListSelection,
    points: Seq<usize>,
    indent: bool,
) -> Option<PointsPlanView> {
    match origin_span(regions, origin) {
        None => None,
        Some(span_) => {
            let model = regions[origin.region->0 as int];
            let focus = origin.selection.focus.value as int;
            let reference = open_end(model.nodes@[span_.first as int]);
            let fenced = under_item(
                model.nodes@,
                model.nodes@[span_.list as int].parent,
            ) && list_parent(model, span_.list as int) is None;
            if indent {
                with_points(indent_plan(text, model, span_, focus), points, focus)
            } else if fenced {
                None
            } else if span_.first == span_.last {
                if editable_at(model, reference, origin.table_recognized) {
                    with_points(outdent_at(text, model, reference, false), points, reference)
                } else {
                    None
                }
            } else {
                match root_exit(text, model, span_, points) {
                    Some(plan) => Some(plan),
                    None => with_points(
                        selected_outdent(text, model, span_, focus),
                        points,
                        focus,
                    ),
                }
            }
        },
    }
}

/// The endpoints of each member, two points each.
pub open spec fn paired(points: Seq<int>) -> Seq<(usize, usize)> {
    Seq::new(
        points.len() / 2,
        |i: int| (points[2 * i] as usize, points[2 * i + 1] as usize),
    )
}

/// The group that moves the items around `origin` for all `members`.
pub open spec fn group_plan(
    text: Seq<char>,
    regions: Seq<HtmlModel>,
    origin: ListSelection,
    members: Seq<GroupMember>,
    indent: bool,
) -> Option<GroupView> {
    match moved_items(text, regions, origin, points_of(members), indent) {
        None => None,
        Some(plan) => trimmed_group(
            text,
            GroupView {
                range: plan.range,
                merge_range: plan.range,
                text: plan.text,
                members,
                offsets: paired(plan.points),
            },
        ),
    }
}

/// A plan with the places of several points.
struct MovedPlan {
    range: SourceSpan,
    text: String,
    points: Vec<usize>,
}

/// Whether a moved plan says what the view says.
spec fn moved_view(plan: Option<MovedPlan>, view: Option<PointsPlanView>) -> bool {
    match plan {
        Some(made) => {
            &&& view matches Some(wanted)
            &&& wanted.range == made.range
            &&& wanted.text == made.text@
            &&& wanted.points.len() == made.points@.len()
            &&& forall|i: int|
                0 <= i < wanted.points.len() ==> (#[trigger] wanted.points[i]) == made.points@[i]
        },
        None => view is None,
    }
}

fn shift_points(plan: Option<ListPlan>, points: &Vec<usize>, reference: usize) -> (r: Option<
    MovedPlan,
>)
    ensures
        moved_view(r, with_points(plan_view(plan), points@, reference as int)),
{
    let made = plan?;
    let mut moved: Vec<usize> = Vec::new();
    let mut i: usize = 0;
    while i < points.len()
        invariant
            plan == Some(made),
            i <= points@.len(),
            moved@.len() == i,
            forall|k: int|
                0 <= k < i ==> 0 <= made.caret + (#[trigger] points@[k]) - reference <= usize::MAX
                    && moved@[k] == made.caret + points@[k] - reference,
        decreases points@.len() - i,
    {
        let at: i128 = made.caret as i128 + points[i] as i128 - reference as i128;
        if at < 0 || at > usize::MAX as i128 {
            assert(!(0 <= made.caret + points@[i as int] - reference <= usize::MAX));
            return None;
        }
        moved.push(at as usize);
        i += 1;
    }
    Some(MovedPlan { range: made.range, text: made.text, points: moved })
}

fn move_items(
    source: &str,
    regions: &Vec<HtmlModel>,
    origin: ListSelection,
    points: &Vec<usize>,
    indent: bool,
) -> (r: Option<MovedPlan>)
    requires
        regions_wf(source@, regions@),
        origin.wf(source@, regions@),
    ensures
        moved_view(r, moved_items(source@, regions@, origin, points@, indent)),
{
    let length = text_len(source);
    let span_ = find_span(source, regions, origin)?;
    let region = origin.region?;
    let model = &regions[region];
    proof {
        assert(regions@[region as int].wf(source@));
        assert(model.nodes@[span_.first as int].wf(source@));
        assert(model.nodes@[span_.last as int].wf(source@));
        lemma_boundary_bounds(source@, origin.selection.focus.value as int);
    }
    let focus = origin.selection.focus.value as usize;
    if indent {
        return shift_points(html_list_indent_for(source, model, span_, focus), points, focus);
    }
    if is_under_item(source, model, span_.list) && list_parent_through_divs(
        Ghost(source@),
        model,
        span_.list,
    ).is_none() {
        return None;
    }
    if span_.first == span_.last {
        let reference = match element_tags(&model.nodes[span_.first]) {
            Some((open, _)) => open.source.end,
            None => {
                return None;
            },
        };
        if !native_list_model(model, reference, origin.table_recognized) {
            return None;
        }
        return shift_points(
            html_list_outdent_at(source, model, reference, false),
            points,
            reference,
        );
    }
    let exit = root_html_list_outdent_with_points(source, model, span_, points);
    proof {
        lemma_root_exit(source@, *model, span_, points@, exit);
    }
    match exit {
        Some(plan) => Some(
            MovedPlan { range: plan.range, text: plan.text, points: plan.points },
        ),
        None => shift_points(
            selected_html_list_outdent_for(source, model, span_, focus),
            points,
            focus,
        ),
    }
}

/// Plans the move of the items around `origin` for all `members`.
fn list_group_plan(
    source: &str,
    regions: &Vec<HtmlModel>,
    origin: ListSelection,
    members: Vec<GroupMember>,
    indent: bool,
) -> (r: Option<HtmlIndentGroup>)
    requires
        regions_wf(source@, regions@),
        origin.wf(source@, regions@),
        members_wf(source@, members@),
    ensures
        match r {
            Some(made) => group_plan(source@, regions@, origin, members@, indent) == Some(made@)
                && span_wf(source@, made.range),
            None => group_plan(source@, regions@, origin, members@, indent) is None,
        },
{
    let points = collect_points(source, &members);
    let plan = move_items(source, regions, origin, &points, indent)?;
    let ghost view = moved_items(source@, regions@, origin, points@, indent)->0;
    let mut offsets: Vec<(usize, usize)> = Vec::new();
    let mut i: usize = 0;
    while i < plan.points.len() / 2
        invariant
            moved_view(Some(plan), Some(view)),
            i <= plan.points@.len() / 2,
            offsets@.len() == i,
            forall|k: int| 0 <= k < i ==> (#[trigger] offsets@[k]) == paired(view.points)[k],
        decreases plan.points@.len() / 2 - i,
    {
        assert(view.points[2 * i as int] == plan.points@[2 * i as int]);
        assert(view.points[2 * i + 1] == plan.points@[2 * i + 1]);
        offsets.push((plan.points[2 * i], plan.points[2 * i + 1]));
        i += 1;
    }
    assert(offsets@ =~= paired(view.points));
    trim_group(
        source,
        HtmlIndentGroup {
            range: plan.range,
            merge_range: plan.range,
            text: plan.text,
            members,
            offsets,
        },
    )
}

/// Selections that are to move together, with the source of their items.
struct ListEntry {
    coverage: SourceSpan,
    origin: ListSelection,
    members: Vec<GroupMember>,
}

/// What a set of selections that move together is.
pub struct EntryView {
    pub coverage: SourceSpan,
    pub origin: ListSelection,
    pub members: Seq<GroupMember>,
}

impl ListEntry {
    spec fn view(self) -> EntryView {
        EntryView { coverage: self.coverage, origin: self.origin, members: self.members@ }
    }
}

spec fn entry_views(entries: Seq<ListEntry>) -> Seq<EntryView> {
    entries.map_values(|e: ListEntry| e.view())
}

/// Whether `a` may stand before `b`: by the start of its items, the longer first.
pub open spec fn entry_precedes(a: EntryView, b: EntryView) -> bool {
    a.coverage.start < b.coverage.start || (a.coverage.start == b.coverage.start && a.coverage.end
        >= b.coverage.end)
}

/// `entry` put into sorted `entries`, behind all that may precede it.
pub open spec fn insert_entry(entries: Seq<EntryView>, entry: EntryView) -> Seq<EntryView>
    decreases entries.len(),
{
    if entries.len() == 0 || entry_precedes(entries.last(), entry) {
        entries.push(entry)
    } else {
        insert_entry(entries.drop_last(), entry).push(entries.last())
    }
}

/// The entries of the first `count` selections, sorted. `None` where a selection
/// touches a list in a way that cannot be moved; one that touches none is left
/// out.
pub open spec fn sorted_entries(regions: Seq<HtmlModel>, selections: Seq<ListSelection>, count: int)
    -> Option<Seq<EntryView>>
    decreases count,
{
    if count <= 0 {
        Some(Seq::empty())
    } else {
        match sorted_entries(regions, selections, count - 1) {
            None => None,
            Some(before) => {
                let selection = selections[count - 1];
                match origin_span(regions, selection) {
                    Some(span_) => Some(
                        insert_entry(
                            before,
                            EntryView {
                                coverage: coverage(regions[selection.region->0 as int], span_),
                                origin: selection,
                                members: seq![
                                    GroupMember {
                                        index: (count - 1) as usize,
                                        selection: selection.selection,
                                    },
                                ],
                            },
                        ),
                    ),
                    None => if touches_list(regions, selection.selection.ordered()) {
                        None
                    } else {
                        Some(before)
                    },
                }
            },
        }
    }
}

/// The entries with those inside an earlier one taken into it.
pub open spec fn absorbed(regions: Seq<HtmlModel>, entries: Seq<EntryView>) -> Option<Seq<EntryView>>
    decreases entries.len(),
{
    if entries.len() == 0 {
        Some(Seq::empty())
    } else {
        match absorbed(regions, entries.drop_last()) {
            None => None,
            Some(before) => {
                let entry = entries.last();
                if before.len() > 0 && span_in(before.last().coverage, entry.coverage) {
                    let last = before.last();
                    match merged_origins(regions, last.origin, entry.origin) {
                        None => None,
                        Some(origin) => Some(
                            before.drop_last().push(
                                EntryView {
                                    coverage: last.coverage,
                                    origin,
                                    members: last.members + entry.members,
                                },
                            ),
                        ),
                    }
                } else {
                    Some(before.push(entry))
                }
            },
        }
    }
}

/// Whether the origin's items lie in a nested list.
pub open spec fn in_nested_list(regions: Seq<HtmlModel>, origin: ListSelection) -> bool {
    origin_span(regions, origin) matches Some(span_) && list_parent(
        regions[origin.region->0 as int],
        span_.list as int,
    ) is Some
}

/// Planned groups, each with its origin, in source order.
pub struct GroupStack {
    pub groups: Seq<GroupView>,
    pub origins: Seq<ListSelection>,
}

/// `member` put into `members`, which are sorted by index.
pub open spec fn insert_member(members: Seq<GroupMember>, member: GroupMember) -> Seq<GroupMember>
    decreases members.len(),
{
    if members.len() == 0 || members.last().index <= member.index {
        members.push(member)
    } else {
        insert_member(members.drop_last(), member).push(members.last())
    }
}

/// Members sorted by index.
pub open spec fn sorted_members(members: Seq<GroupMember>) -> Seq<GroupMember>
    decreases members.len(),
{
    if members.len() == 0 {
        Seq::empty()
    } else {
        insert_member(sorted_members(members.drop_last()), members.last())
    }
}

/// Whether the edits of two groups meet: they overlap, or they rewrite the same
/// container when both indent or both leave nested lists.
pub open spec fn groups_meet(
    regions: Seq<HtmlModel>,
    previous: GroupView,
    previous_origin: ListSelection,
    planned: GroupView,
    origin: ListSelection,
    indent: bool,
) -> bool {
    let raw = planned.merge_range.start < previous.merge_range.end;
    ||| planned.range.start < previous.range.end
    ||| indent && raw
    ||| !indent && raw && in_nested_list(regions, previous_origin) && in_nested_list(regions, origin)
}

/// Pushes a planned group, after it took in the groups before it whose edits meet
/// its own. `None` where two groups overlap that cannot be one.
pub open spec fn push_group(
    text: Seq<char>,
    regions: Seq<HtmlModel>,
    stack: GroupStack,
    origin: ListSelection,
    members: Seq<GroupMember>,
    planned: GroupView,
    indent: bool,
) -> Option<GroupStack>
    decreases stack.groups.len(),
{
    let alone = GroupStack {
        groups: stack.groups.push(planned),
        origins: stack.origins.push(origin),
    };
    if stack.groups.len() == 0 {
        Some(alone)
    } else {
        let previous = stack.groups.last();
        let previous_origin = stack.origins.last();
        if !groups_meet(regions, previous, previous_origin, planned, origin, indent) {
            Some(alone)
        } else {
            match merged_origins(regions, previous_origin, origin) {
                None => if planned.range.start < previous.range.end {
                    None
                } else {
                    Some(alone)
                },
                Some(merged) => {
                    let together = sorted_members(members + previous.members);
                    match group_plan(text, regions, merged, together, indent) {
                        None => None,
                        Some(replanned) => push_group(
                            text,
                            regions,
                            GroupStack {
                                groups: stack.groups.drop_last(),
                                origins: stack.origins.drop_last(),
                            },
                            merged,
                            together,
                            replanned,
                            indent,
                        ),
                    }
                },
            }
        }
    }
}

/// Whether the origin's items start with the first item of their list, which
/// cannot be indented.
pub open spec fn starts_list(regions: Seq<HtmlModel>, origin: ListSelection) -> Option<bool> {
    match origin_span(regions, origin) {
        None => None,
        Some(span_) => {
            let items = list_items(regions[origin.region->0 as int], span_.list as int);
            if items.len() == 0 {
                None
            } else {
                Some(items[0] == span_.first)
            }
        },
    }
}

/// The groups of the first `count` entries.
pub open spec fn stacked(
    text: Seq<char>,
    regions: Seq<HtmlModel>,
    entries: Seq<EntryView>,
    indent: bool,
    count: int,
) -> Option<GroupStack>
    decreases count,
{
    if count <= 0 {
        Some(GroupStack { groups: Seq::empty(), origins: Seq::empty() })
    } else {
        match stacked(text, regions, entries, indent, count - 1) {
            None => None,
            Some(stack) => {
                let entry = entries[count - 1];
                if origin_span(regions, entry.origin) is None {
                    None
                } else if indent && starts_list(regions, entry.origin) is None {
                    None
                } else if indent && starts_list(regions, entry.origin) == Some(true) {
                    Some(stack)
                } else {
                    match group_plan(text, regions, entry.origin, entry.members, indent) {
                        None => None,
                        Some(planned) => push_group(
                            text,
                            regions,
                            stack,
                            entry.origin,
                            entry.members,
                            planned,
                            indent,
                        ),
                    }
                }
            },
        }
    }
}

/// The groups that a list command on all `selections` moves, before exits next
/// to each other are joined. `None` where the command does not apply.
pub open spec fn grouped_items(
    text: Seq<char>,
    regions: Seq<HtmlModel>,
    selections: Seq<ListSelection>,
    indent: bool,
) -> Option<Seq<GroupView>> {
    match sorted_entries(regions, selections, selections.len() as int) {
        None => None,
        Some(entries) => match absorbed(regions, entries) {
            None => None,
            Some(kept) => match stacked(text, regions, kept, indent, kept.len() as int) {
                Some(stack) if stack.groups.len() > 0 => Some(stack.groups),
                _ => None,
            },
        },
    }
}

fn copy_members(members: &Vec<GroupMember>) -> (r: Vec<GroupMember>)
    ensures
        r@ == members@,
{
    let mut out: Vec<GroupMember> = Vec::new();
    let mut i: usize = 0;
    while i < members.len()
        invariant
            i <= members@.len(),
            out@ == members@.take(i as int),
        decreases members@.len() - i,
    {
        out.push(members[i]);
        i += 1;
        assert(out@ =~= members@.take(i as int));
    }
    assert(members@.take(i as int) =~= members@);
    out
}

/// All members of both lists, sorted by index.
fn merge_members(first: &Vec<GroupMember>, second: &Vec<GroupMember>) -> (r: Vec<GroupMember>)
    ensures
        r@ == sorted_members(first@ + second@),
        forall|text: Seq<char>|
            members_wf(text, first@) && members_wf(text, second@) ==> #[trigger] members_wf(text, r@),
{
    let ghost all = first@ + second@;
    let mut out: Vec<GroupMember> = Vec::new();
    let mut i: usize = 0;
    let count: usize = first.len();
    assert(all.take(0) =~= Seq::empty());
    while i < count
        invariant
            count == first@.len(),
            all == first@ + second@,
            i <= count,
            out@ == sorted_members(all.take(i as int)),
        decreases count - i,
    {
        assert(all.take(i + 1).drop_last() =~= all.take(i as int));
        assert(all.take(i + 1).last() == first@[i as int]);
        place_member(&mut out, first[i]);
        i += 1;
    }
    let mut j: usize = 0;
    while j < second.len()
        invariant
            count == first@.len(),
            all == first@ + second@,
            j <= second@.len(),
            out@ == sorted_members(all.take(count + j)),
        decreases second@.len() - j,
    {
        assert(all.take(count + j + 1).drop_last() =~= all.take(count + j));
        assert(all.take(count + j + 1).last() == second@[j as int]);
        place_member(&mut out, second[j]);
        j += 1;
    }
    assert(all.take(count + j) =~= all);
    proof {
        assert forall|text: Seq<char>|
            members_wf(text, first@) && members_wf(text, second@) implies #[trigger] members_wf(
            text,
            out@,
        ) by {
            assert(members_wf(text, all));
            lemma_sorted_members(text, all);
        }
    }
    out
}

proof fn lemma_insert_member(text: Seq<char>, members: Seq<GroupMember>, member: GroupMember)
    requires
        members_wf(text, members),
        member.selection.wf(text),
    ensures
        members_wf(text, insert_member(members, member)),
    decreases members.len(),
{
    if members.len() > 0 && members.last().index > member.index {
        assert(members_wf(text, members.drop_last()));
        lemma_insert_member(text, members.drop_last(), member);
        assert(members.last() == members[members.len() - 1]);
    }
}

proof fn lemma_sorted_members(text: Seq<char>, members: Seq<GroupMember>)
    requires
        members_wf(text, members),
    ensures
        members_wf(text, sorted_members(members)),
    decreases members.len(),
{
    if members.len() > 0 {
        assert(members_wf(text, members.drop_last()));
        lemma_sorted_members(text, members.drop_last());
        assert(members.last() == members[members.len() - 1]);
        lemma_insert_member(text, sorted_members(members.drop_last()), members.last());
    }
}

fn place_member(members: &mut Vec<GroupMember>, member: GroupMember)
    ensures
        final(members)@ == insert_member(old(members)@, member),
{
    let ghost all = members@;
    let mut at: usize = members.len();
    proof {
        assert(all.take(at as int) =~= all);
        assert(insert_member(all, member) =~= insert_member(all.take(at as int), member) + all.skip(
            at as int,
        ));
    }
    while at > 0 && members[at - 1].index > member.index
        invariant
            members@ == all,
            at <= all.len(),
            insert_member(all, member) == insert_member(all.take(at as int), member) + all.skip(
                at as int,
            ),
        decreases at,
    {
        proof {
            let part = all.take(at as int);
            assert(part.last() == all[at - 1]);
            assert(part.drop_last() =~= all.take(at - 1));
            assert(insert_member(part, member) + all.skip(at as int) =~= insert_member(
                all.take(at - 1),
                member,
            ) + all.skip(at - 1));
        }
        at -= 1;
    }
    proof {
        if at > 0 {
            assert(all.take(at as int).last() == all[at - 1]);
        }
    }
    members.insert(at, member);
    assert(members@ =~= all.take(at as int).push(member) + all.skip(at as int));
}

fn place_entry(entries: &mut Vec<ListEntry>, entry: ListEntry)
    ensures
        entry_views(final(entries)@) == insert_entry(entry_views(old(entries)@), entry.view()),
        final(entries)@.len() == old(entries)@.len() + 1,
        forall|k: int|
            0 <= k < final(entries)@.len() ==> (#[trigger] final(entries)@[k]) == entry
                || old(entries)@.contains(final(entries)@[k]),
{
    let ghost all = entry_views(entries@);
    let mut at: usize = entries.len();
    proof {
        assert(all.take(at as int) =~= all);
        assert(insert_entry(all, entry.view()) =~= insert_entry(all.take(at as int), entry.view())
            + all.skip(at as int));
    }
    while at > 0 && (entries[at - 1].coverage.start > entry.coverage.start || (entries[at
        - 1].coverage.start == entry.coverage.start && entries[at - 1].coverage.end
        < entry.coverage.end))
        invariant
            entries@ == old(entries)@,
            all == entry_views(entries@),
            at <= entries@.len(),
            insert_entry(all, entry.view()) == insert_entry(all.take(at as int), entry.view())
                + all.skip(at as int),
        decreases at,
    {
        proof {
            let part = all.take(at as int);
            assert(part.last() == all[at - 1]);
            assert(part.drop_last() =~= all.take(at - 1));
            assert(insert_entry(part, entry.view()) + all.skip(at as int) =~= insert_entry(
                all.take(at - 1),
                entry.view(),
            ) + all.skip(at - 1));
        }
        at -= 1;
    }
    proof {
        if at > 0 {
            assert(all.take(at as int).last() == all[at - 1]);
        }
    }
    entries.insert(at, entry);
    assert(entry_views(entries@) =~= all.take(at as int).push(entry.view()) + all.skip(at as int));
    assert forall|k: int| 0 <= k < entries@.len() implies (#[trigger] entries@[k]) == entry || old(
        entries,
    )@.contains(entries@[k]) by {
        if k < at {
            assert(old(entries)@[k] == entries@[k]);
        } else if k > at {
            assert(old(entries)@[k - 1] == entries@[k]);
        }
    }
}

impl ListEntry {
    spec fn wf(self, text: Seq<char>, regions: Seq<HtmlModel>) -> bool {
        self.origin.wf(text, regions) && members_wf(text, self.members@)
    }
}

spec fn entries_wf(text: Seq<char>, regions: Seq<HtmlModel>, entries: Seq<ListEntry>) -> bool {
    forall|k: int| 0 <= k < entries.len() ==> (#[trigger] entries[k]).wf(text, regions)
}

/// The models of a list of groups.
pub open spec fn group_views(groups: Seq<HtmlIndentGroup>) -> Seq<GroupView> {
    groups.map_values(|g: HtmlIndentGroup| g@)
}

fn collect_entries(source: &str, regions: &Vec<HtmlModel>, selections: &Vec<ListSelection>) -> (r:
    Option<Vec<ListEntry>>)
    requires
        regions_wf(source@, regions@),
        forall|i: int|
            0 <= i < selections@.len() ==> (#[trigger] selections@[i]).wf(source@, regions@),
    ensures
        match r {
            Some(entries) => sorted_entries(regions@, selections@, selections@.len() as int)
                == Some(entry_views(entries@)) && entries_wf(source@, regions@, entries@),
            None => sorted_entries(regions@, selections@, selections@.len() as int) is None,
        },
{
    let mut entries: Vec<ListEntry> = Vec::new();
    let mut i: usize = 0;
    assert(entry_views(entries@) =~= Seq::empty());
    while i < selections.len()
        invariant
            regions_wf(source@, regions@),
            forall|i: int|
                0 <= i < selections@.len() ==> (#[trigger] selections@[i]).wf(source@, regions@),
            i <= selections@.len(),
            sorted_entries(regions@, selections@, i as int) == Some(entry_views(entries@)),
            entries_wf(source@, regions@, entries@),
        decreases selections@.len() - i,
    {
        let selection = selections[i];
        assert(selections@[i as int].wf(source@, regions@));
        match find_span(source, regions, selection) {
            Some(span_) => {
                if let Some(region) = selection.region {
                    let model = &regions[region];
                    let covered = SourceSpan::new(
                        model.nodes[span_.first].source.start,
                        model.nodes[span_.last].source.end,
                    );
                    let mut members: Vec<GroupMember> = Vec::new();
                    members.push(GroupMember { index: i, selection: selection.selection });
                    assert(members@ =~= seq![
                        GroupMember { index: i, selection: selection.selection },
                    ]);
                    let ghost before = entries@;
                    let entry = ListEntry { coverage: covered, origin: selection, members };
                    assert(entry.wf(source@, regions@));
                    place_entry(&mut entries, entry);
                    assert forall|k: int| 0 <= k < entries@.len() implies (
                    #[trigger] entries@[k]).wf(source@, regions@) by {
                        if entries@[k] != entry {
                            assert(before.contains(entries@[k]));
                        }
                    }
                }
            },
            None => {
                if touches_html_list(regions, selection.selection) {
                    proof {
                        lemma_entries_refused(regions@, selections@, i + 1);
                    }
                    return None;
                }
            },
        }
        i += 1;
    }
    Some(entries)
}

proof fn lemma_entries_refused(
    regions: Seq<HtmlModel>,
    selections: Seq<ListSelection>,
    count: int,
)
    requires
        0 <= count <= selections.len(),
        sorted_entries(regions, selections, count) is None,
    ensures
        sorted_entries(regions, selections, selections.len() as int) is None,
    decreases selections.len() - count,
{
    if count < selections.len() {
        lemma_entries_refused(regions, selections, count + 1);
    }
}

proof fn lemma_absorb_refused(regions: Seq<HtmlModel>, entries: Seq<EntryView>, count: int)
    requires
        0 <= count <= entries.len(),
        absorbed(regions, entries.take(count)) is None,
    ensures
        absorbed(regions, entries) is None,
    decreases entries.len() - count,
{
    if count < entries.len() {
        assert(entries.take(count + 1).drop_last() =~= entries.take(count));
        lemma_absorb_refused(regions, entries, count + 1);
    } else {
        assert(entries.take(count) =~= entries);
    }
}

fn absorb_entries(source: &str, regions: &Vec<HtmlModel>, entries: &Vec<ListEntry>) -> (r: Option<
    Vec<ListEntry>,
>)
    requires
        regions_wf(source@, regions@),
        entries_wf(source@, regions@, entries@),
    ensures
        match r {
            Some(kept) => absorbed(regions@, entry_views(entries@)) == Some(entry_views(kept@))
                && entries_wf(source@, regions@, kept@),
            None => absorbed(regions@, entry_views(entries@)) is None,
        },
{
    let ghost views = entry_views(entries@);
    let mut kept: Vec<ListEntry> = Vec::new();
    let mut i: usize = 0;
    assert(views.take(0) =~= Seq::empty());
    assert(entry_views(kept@) =~= Seq::empty());
    while i < entries.len()
        invariant
            regions_wf(source@, regions@),
            entries_wf(source@, regions@, entries@),
            views == entry_views(entries@),
            i <= entries@.len(),
            absorbed(regions@, views.take(i as int)) == Some(entry_views(kept@)),
            entries_wf(source@, regions@, kept@),
        decreases entries@.len() - i,
    {
        let entry = &entries[i];
        assert(entries@[i as int].wf(source@, regions@));
        assert(views.take(i + 1).drop_last() =~= views.take(i as int));
        assert(views.take(i + 1).last() == entry.view());
        let ghost before = kept@;
        let count = kept.len();
        let inside = count > 0 && span_contains(kept[count - 1].coverage, entry.coverage);
        if inside {
            assert(entry_views(before).last() == before.last().view());
            assert(before[count - 1].wf(source@, regions@));
            match merge_list_origins(source, regions, kept[count - 1].origin, entry.origin) {
                None => {
                    proof {
                        lemma_absorb_refused(regions@, views, i + 1);
                    }
                    return None;
                },
                Some(origin) => {
                    let members = join_members(&kept[count - 1].members, &entry.members);
                    let covered = kept[count - 1].coverage;
                    let joined = ListEntry { coverage: covered, origin, members };
                    kept.set(count - 1, joined);
                    assert(entry_views(kept@) =~= entry_views(before).drop_last().push(
                        joined.view(),
                    ));
                    assert(joined.wf(source@, regions@));
                },
            }
        } else {
            if count > 0 {
                assert(entry_views(before).last() == before.last().view());
            }
            let copy = ListEntry {
                coverage: entry.coverage,
                origin: entry.origin,
                members: copy_members(&entry.members),
            };
            kept.push(copy);
            assert(entry_views(kept@) =~= entry_views(before).push(entry.view()));
        }
        i += 1;
    }
    assert(views.take(i as int) =~= views);
    Some(kept)
}

fn join_members(first: &Vec<GroupMember>, second: &Vec<GroupMember>) -> (r: Vec<GroupMember>)
    ensures
        r@ == first@ + second@,
{
    let mut out = copy_members(first);
    let mut i: usize = 0;
    assert(first@ + second@.take(0) =~= first@);
    while i < second.len()
        invariant
            i <= second@.len(),
            out@ == first@ + second@.take(i as int),
        decreases second@.len() - i,
    {
        out.push(second[i]);
        i += 1;
        assert(out@ =~= first@ + second@.take(i as int));
    }
    assert(second@.take(i as int) =~= second@);
    out
}

fn is_in_nested_list(source: &str, regions: &Vec<HtmlModel>, origin: ListSelection) -> (r: bool)
    requires
        regions_wf(source@, regions@),
        origin.wf(source@, regions@),
    ensures
        r == in_nested_list(regions@, origin),
{
    match find_span(source, regions, origin) {
        Some(span_) => {
            match origin.region {
                Some(region) => {
                    assert(regions@[region as int].wf(source@));
                    list_parent_through_divs(Ghost(source@), &regions[region], span_.list).is_some()
                },
                None => false,
            }
        },
        None => false,
    }
}

fn list_starts(source: &str, regions: &Vec<HtmlModel>, origin: ListSelection) -> (r: Option<bool>)
    requires
        regions_wf(source@, regions@),
        origin.wf(source@, regions@),
    ensures
        r == starts_list(regions@, origin),
{
    let span_ = find_span(source, regions, origin)?;
    let region = origin.region?;
    assert(regions@[region as int].wf(source@));
    let items = collect_items(Ghost(source@), &regions[region], span_.list);
    if items.len() == 0 {
        return None;
    }
    Some(items[0] == span_.first)
}

fn do_groups_meet(
    source: &str,
    regions: &Vec<HtmlModel>,
    previous: &HtmlIndentGroup,
    previous_origin: ListSelection,
    planned: &HtmlIndentGroup,
    origin: ListSelection,
    indent: bool,
) -> (r: bool)
    requires
        regions_wf(source@, regions@),
        previous_origin.wf(source@, regions@),
        origin.wf(source@, regions@),
    ensures
        r == groups_meet(regions@, previous@, previous_origin, planned@, origin, indent),
{
    if planned.range.start < previous.range.end {
        return true;
    }
    if planned.merge_range.start >= previous.merge_range.end {
        return false;
    }
    indent || (is_in_nested_list(source, regions, previous_origin) && is_in_nested_list(
        source,
        regions,
        origin,
    ))
}

spec fn stack_wf(
    text: Seq<char>,
    regions: Seq<HtmlModel>,
    groups: Seq<HtmlIndentGroup>,
    origins: Seq<ListSelection>,
) -> bool {
    &&& groups.len() == origins.len()
    &&& forall|k: int| 0 <= k < origins.len() ==> (#[trigger] origins[k]).wf(text, regions)
    &&& forall|k: int|
        0 <= k < groups.len() ==> members_wf(text, (#[trigger] groups[k]).members@) && span_wf(
            text,
            groups[k].range,
        )
}

fn push_planned(
    source: &str,
    regions: &Vec<HtmlModel>,
    groups: &mut Vec<HtmlIndentGroup>,
    origins: &mut Vec<ListSelection>,
    origin: ListSelection,
    planned: HtmlIndentGroup,
    indent: bool,
) -> (r: bool)
    requires
        regions_wf(source@, regions@),
        stack_wf(source@, regions@, old(groups)@, old(origins)@),
        origin.wf(source@, regions@),
        members_wf(source@, planned.members@),
        span_wf(source@, planned.range),
    ensures
        ({
            let wanted = push_group(
                source@,
                regions@,
                GroupStack { groups: group_views(old(groups)@), origins: old(origins)@ },
                origin,
                planned.members@,
                planned@,
                indent,
            );
            if r {
                wanted matches Some(stack) && stack.groups == group_views(final(groups)@)
                    && stack.origins == final(origins)@ && stack_wf(
                    source@,
                    regions@,
                    final(groups)@,
                    final(origins)@,
                )
            } else {
                wanted is None
            }
        }),
    decreases old(groups)@.len(),
{
    let count = groups.len();
    let ghost views = group_views(groups@);
    let ghost old_origins = origins@;
    if count > 0 {
        assert(views.last() == groups@[count - 1]@);
        let previous_origin = origins[count - 1];
        assert(origins@[count - 1].wf(source@, regions@));
        if do_groups_meet(
            source,
            regions,
            &groups[count - 1],
            previous_origin,
            &planned,
            origin,
            indent,
        ) {
            match merge_list_origins(source, regions, previous_origin, origin) {
                None => {
                    if planned.range.start < groups[count - 1].range.end {
                        return false;
                    }
                },
                Some(merged) => {
                    assert(members_wf(source@, groups@[count - 1].members@));
                    let together = merge_members(&planned.members, &groups[count - 1].members);
                    let ghost all = together@;
                    match list_group_plan(source, regions, merged, together, indent) {
                        None => {
                            return false;
                        },
                        Some(replanned) => {
                            groups.pop();
                            origins.pop();
                            proof {
                                assert(group_views(groups@) =~= views.drop_last());
                                assert(origins@ =~= old_origins.drop_last());
                                assert(replanned.members@ == all);
                            }
                            return push_planned(
                                source,
                                regions,
                                groups,
                                origins,
                                merged,
                                replanned,
                                indent,
                            );
                        },
                    }
                },
            }
        }
    }
    groups.push(planned);
    origins.push(origin);
    assert(group_views(groups@) =~= views.push(planned@));
    true
}

#[verifier::rlimit(40)]
fn stack_groups(source: &str, regions: &Vec<HtmlModel>, entries: &Vec<ListEntry>, indent: bool) -> (r:
    Option<Vec<HtmlIndentGroup>>)
    requires
        regions_wf(source@, regions@),
        entries_wf(source@, regions@, entries@),
    ensures
        ({
            let views = entry_views(entries@);
            let wanted = stacked(source@, regions@, views, indent, views.len() as int);
            match r {
                Some(groups) => wanted matches Some(stack) && stack.groups == group_views(groups@)
                    && forall|k: int|
                    0 <= k < groups@.len() ==> span_wf(source@, (#[trigger] groups@[k]).range),
                None => wanted is None,
            }
        }),
{
    let ghost views = entry_views(entries@);
    let mut groups: Vec<HtmlIndentGroup> = Vec::new();
    let mut origins: Vec<ListSelection> = Vec::new();
    let mut i: usize = 0;
    assert(group_views(groups@) =~= Seq::empty());
    assert(origins@ =~= Seq::empty());
    while i < entries.len()
        invariant
            regions_wf(source@, regions@),
            entries_wf(source@, regions@, entries@),
            views == entry_views(entries@),
            i <= entries@.len(),
            stack_wf(source@, regions@, groups@, origins@),
            stacked(source@, regions@, views, indent, i as int) == Some(
                GroupStack { groups: group_views(groups@), origins: origins@ },
            ),
        decreases entries@.len() - i,
    {
        let entry = &entries[i];
        assert(entries@[i as int].wf(source@, regions@));
        assert(views[i as int] == entry.view());
        if find_span(source, regions, entry.origin).is_none() {
            proof {
                lemma_stack_refused(source@, regions@, views, indent, i + 1);
            }
            return None;
        }
        let mut skipped = false;
        if indent {
            match list_starts(source, regions, entry.origin) {
                None => {
                    proof {
                        lemma_stack_refused(source@, regions@, views, indent, i + 1);
                    }
                    return None;
                },
                Some(first) => {
                    skipped = first;
                },
            }
        }
        if !skipped {
            let planned = match list_group_plan(
                source,
                regions,
                entry.origin,
                copy_members(&entry.members),
                indent,
            ) {
                Some(planned) => planned,
                None => {
                    proof {
                        lemma_stack_refused(source@, regions@, views, indent, i + 1);
                    }
                    return None;
                },
            };
            assert(planned.members@ == entry.members@);
            if !push_planned(
                source,
                regions,
                &mut groups,
                &mut origins,
                entry.origin,
                planned,
                indent,
            ) {
                proof {
                    lemma_stack_refused(source@, regions@, views, indent, i + 1);
                }
                return None;
            }
        }
        i += 1;
    }
    Some(groups)
}

proof fn lemma_stack_refused(
    text: Seq<char>,
    regions: Seq<HtmlModel>,
    entries: Seq<EntryView>,
    indent: bool,
    count: int,
)
    requires
        0 <= count <= entries.len(),
        stacked(text, regions, entries, indent, count) is None,
    ensures
        stacked(text, regions, entries, indent, entries.len() as int) is None,
    decreases entries.len() - count,
{
    if count < entries.len() {
        lemma_stack_refused(text, regions, entries, indent, count + 1);
    }
}

/// Groups the selections whose items move together under a list command, and
/// plans the edit of each group. `None` where a selection touches a list in a
/// way that cannot be moved, or nothing would move.
pub fn group_html_list_items(
    source: &str,
    regions: &Vec<HtmlModel>,
    selections: &Vec<ListSelection>,
    indent: bool,
) -> (r: Option<Vec<HtmlIndentGroup>>)
    requires
        regions_wf(source@, regions@),
        forall|i: int|
            0 <= i < selections@.len() ==> (#[trigger] selections@[i]).wf(source@, regions@),
    ensures
        match r {
            Some(groups) => grouped_items(source@, regions@, selections@, indent) == Some(
                group_views(groups@),
            ) && forall|k: int|
                0 <= k < groups@.len() ==> span_wf(source@, (#[trigger] groups@[k]).range),
            None => grouped_items(source@, regions@, selections@, indent) is None,
        },
{
    let entries = collect_entries(source, regions, selections)?;
    let kept = absorb_entries(source, regions, &entries)?;
    let groups = stack_groups(source, regions, &kept, indent)?;
    if groups.len() == 0 {
        return None;
    }
    Some(groups)
}

/// The group for a single selection. A range in an outermost list takes its items
/// out of it with both ends in their places.
pub open spec fn single_group(
    text: Seq<char>,
    regions: Seq<HtmlModel>,
    origin: ListSelection,
    indent: bool,
) -> Option<GroupView> {
    let members = seq![GroupMember { index: 0, selection: origin.selection }];
    match group_plan(text, regions, origin, members, indent) {
        None => None,
        Some(planned) => if indent || origin.selection.anchor == origin.selection.focus {
            Some(planned)
        } else {
            let span_ = origin_span(regions, origin)->0;
            match root_exit(
                text,
                regions[origin.region->0 as int],
                span_,
                points_of(members),
            ) {
                Some(plan) => trimmed_group(
                    text,
                    GroupView {
                        range: plan.range,
                        merge_range: plan.range,
                        text: plan.text,
                        members,
                        offsets: paired(plan.points),
                    },
                ),
                None => Some(planned),
            }
        },
    }
}

/// Plans a list command on a single selection. In source mode there is none.
pub fn single_html_list_group(
    source_mode: bool,
    source: &str,
    regions: &Vec<HtmlModel>,
    origin: ListSelection,
    indent: bool,
) -> (r: Option<HtmlIndentGroup>)
    requires
        regions_wf(source@, regions@),
        origin.wf(source@, regions@),
    ensures
        match r {
            Some(made) => !source_mode && single_group(source@, regions@, origin, indent) == Some(
                made@,
            ),
            None => source_mode || single_group(source@, regions@, origin, indent) is None,
        },
{
    if source_mode {
        return None;
    }
    let mut members: Vec<GroupMember> = Vec::new();
    members.push(GroupMember { index: 0, selection: origin.selection });
    assert(members@ =~= seq![GroupMember { index: 0, selection: origin.selection }]);
    let planned = list_group_plan(source, regions, origin, copy_members(&members), indent)?;
    if indent || origin.selection.is_empty() {
        return Some(planned);
    }
    let span_ = find_span(source, regions, origin)?;
    let region = origin.region?;
    let model = &regions[region];
    assert(regions@[region as int].wf(source@));
    let points = collect_points(source, &members);
    let exit = root_html_list_outdent_with_points(source, model, span_, &points);
    proof {
        lemma_root_exit(source@, *model, span_, points@, exit);
    }
    match exit {
        None => Some(planned),
        Some(plan) => {
            let ghost view = root_exit(source@, *model, span_, points@)->0;
            let mut offsets: Vec<(usize, usize)> = Vec::new();
            assert(view.points[0] == plan.points@[0]);
            assert(view.points[1] == plan.points@[1]);
            offsets.push((plan.points[0], plan.points[1]));
            assert(offsets@ =~= paired(view.points));
            trim_group(
                source,
                HtmlIndentGroup {
                    range: plan.range,
                    merge_range: plan.range,
                    text: plan.text,
                    members,
                    offsets,
                },
            )
        },
    }
}

/// The members of all groups together.
pub open spec fn group_members(groups: Seq<GroupView>) -> Multiset<GroupMember>
    decreases groups.len(),
{
    if groups.len() == 0 {
        Multiset::empty()
    } else {
        group_members(groups.drop_last()).add(groups.last().members.to_multiset())
    }
}

spec fn entry_members(entries: Seq<EntryView>) -> Multiset<GroupMember>
    decreases entries.len(),
{
    if entries.len() == 0 {
        Multiset::empty()
    } else {
        entry_members(entries.drop_last()).add(entries.last().members.to_multiset())
    }
}

proof fn lemma_entry_push(entries: Seq<EntryView>, entry: EntryView)
    ensures
        entry_members(entries.push(entry)) == entry_members(entries).add(
            entry.members.to_multiset(),
        ),
{
    assert(entries.push(entry).drop_last() =~= entries);
}

proof fn lemma_group_push(groups: Seq<GroupView>, group: GroupView)
    ensures
        group_members(groups.push(group)) == group_members(groups).add(
            group.members.to_multiset(),
        ),
{
    assert(groups.push(group).drop_last() =~= groups);
}

proof fn lemma_inserted_entry(entries: Seq<EntryView>, entry: EntryView)
    ensures
        entry_members(insert_entry(entries, entry)) == entry_members(entries).add(
            entry.members.to_multiset(),
        ),
    decreases entries.len(),
{
    if entries.len() == 0 || entry_precedes(entries.last(), entry) {
        lemma_entry_push(entries, entry);
    } else {
        lemma_inserted_entry(entries.drop_last(), entry);
        lemma_entry_push(insert_entry(entries.drop_last(), entry), entries.last());
        let front = entry_members(entries.drop_last());
        let own = entry.members.to_multiset();
        let last = entries.last().members.to_multiset();
        assert(front.add(own).add(last) =~= front.add(last).add(own));
    }
}

proof fn lemma_sorted_entry_members(
    regions: Seq<HtmlModel>,
    selections: Seq<ListSelection>,
    count: int,
    i: int,
    member: GroupMember,
)
    requires
        0 <= count <= selections.len() <= usize::MAX,
        0 <= i < selections.len(),
        member.index == i,
        member.selection == selections[i].selection,
        sorted_entries(regions, selections, count) is Some,
    ensures
        entry_members(sorted_entries(regions, selections, count)->Some_0).count(member) == (if i
            < count && origin_span(regions, selections[i]) is Some {
            1nat
        } else {
            0
        }),
    decreases count,
{
    if count > 0 {
        lemma_sorted_entry_members(regions, selections, count - 1, i, member);
        let before = sorted_entries(regions, selections, count - 1)->Some_0;
        let selection = selections[count - 1];
        match origin_span(regions, selection) {
            Some(span_) => {
                let own = GroupMember {
                    index: (count - 1) as usize,
                    selection: selection.selection,
                };
                let entry = EntryView {
                    coverage: coverage(regions[selection.region->0 as int], span_),
                    origin: selection,
                    members: seq![own],
                };
                lemma_inserted_entry(before, entry);
                seq![own].to_multiset_ensures();
                assert(Seq::<GroupMember>::empty().push(own) =~= seq![own]);
                Seq::<GroupMember>::empty().to_multiset_ensures();
                assert(seq![own].to_multiset() =~= Multiset::singleton(own)) by {
                    assert(Seq::<GroupMember>::empty().to_multiset() =~= Multiset::empty());
                }
            },
            None => {},
        }
    }
}

proof fn lemma_absorbed_members(regions: Seq<HtmlModel>, entries: Seq<EntryView>)
    requires
        absorbed(regions, entries) is Some,
    ensures
        entry_members(absorbed(regions, entries)->Some_0) == entry_members(entries),
    decreases entries.len(),
{
    if entries.len() > 0 {
        lemma_absorbed_members(regions, entries.drop_last());
        let before = absorbed(regions, entries.drop_last())->Some_0;
        let entry = entries.last();
        if before.len() > 0 && span_in(before.last().coverage, entry.coverage) {
            let last = before.last();
            let joined = EntryView {
                coverage: last.coverage,
                origin: merged_origins(regions, last.origin, entry.origin)->Some_0,
                members: last.members + entry.members,
            };
            lemma_entry_push(before.drop_last(), joined);
            vstd::seq_lib::lemma_multiset_commutative(last.members, entry.members);
            let front = entry_members(before.drop_last());
            assert(front.add(last.members.to_multiset().add(entry.members.to_multiset()))
                =~= front.add(last.members.to_multiset()).add(entry.members.to_multiset()));
        } else {
            lemma_entry_push(before, entry);
        }
    }
}

proof fn lemma_inserted_member(members: Seq<GroupMember>, member: GroupMember)
    ensures
        insert_member(members, member).to_multiset() == members.to_multiset().insert(member),
    decreases members.len(),
{
    members.to_multiset_ensures();
    if members.len() == 0 || members.last().index <= member.index {
    } else {
        let front = members.drop_last();
        let made = insert_member(front, member);
        lemma_inserted_member(front, member);
        front.to_multiset_ensures();
        made.to_multiset_ensures();
        assert(front.push(members.last()) =~= members);
        assert(made.push(members.last()).to_multiset() =~= members.to_multiset().insert(member));
    }
}

proof fn lemma_sorted_keeps(members: Seq<GroupMember>)
    ensures
        sorted_members(members).to_multiset() == members.to_multiset(),
    decreases members.len(),
{
    if members.len() > 0 {
        let front = members.drop_last();
        lemma_sorted_keeps(front);
        lemma_inserted_member(sorted_members(front), members.last());
        front.to_multiset_ensures();
        assert(front.push(members.last()) =~= members);
    } else {
        assert(sorted_members(members) =~= members);
    }
}

proof fn lemma_pushed_members(
    text: Seq<char>,
    regions: Seq<HtmlModel>,
    stack: GroupStack,
    origin: ListSelection,
    members: Seq<GroupMember>,
    planned: GroupView,
    indent: bool,
)
    requires
        planned.members == members,
        push_group(text, regions, stack, origin, members, planned, indent) is Some,
    ensures
        group_members(
            push_group(text, regions, stack, origin, members, planned, indent)->Some_0.groups,
        ) == group_members(stack.groups).add(members.to_multiset()),
    decreases stack.groups.len(),
{
    lemma_group_push(stack.groups, planned);
    if stack.groups.len() > 0 {
        let previous = stack.groups.last();
        let previous_origin = stack.origins.last();
        if groups_meet(regions, previous, previous_origin, planned, origin, indent) {
            match merged_origins(regions, previous_origin, origin) {
                Some(merged) => {
                    let together = sorted_members(members + previous.members);
                    let replanned = group_plan(text, regions, merged, together, indent)->Some_0;
                    let rest = GroupStack {
                        groups: stack.groups.drop_last(),
                        origins: stack.origins.drop_last(),
                    };
                    lemma_pushed_members(
                        text,
                        regions,
                        rest,
                        merged,
                        together,
                        replanned,
                        indent,
                    );
                    lemma_sorted_keeps(members + previous.members);
                    vstd::seq_lib::lemma_multiset_commutative(members, previous.members);
                    let front = group_members(rest.groups);
                    assert(front.add(members.to_multiset().add(previous.members.to_multiset()))
                        =~= front.add(previous.members.to_multiset()).add(members.to_multiset()));
                },
                None => {},
            }
        }
    }
}

proof fn lemma_stacked_members(
    text: Seq<char>,
    regions: Seq<HtmlModel>,
    entries: Seq<EntryView>,
    indent: bool,
    count: int,
)
    requires
        0 <= count <= entries.len(),
        stacked(text, regions, entries, indent, count) is Some,
    ensures
        ({
            let found = group_members(stacked(text, regions, entries, indent, count)->Some_0.groups);
            let all = entry_members(entries.take(count));
            &&& found.subset_of(all)
            &&& !indent ==> found == all
        }),
    decreases count,
{
    if count > 0 {
        lemma_stacked_members(text, regions, entries, indent, count - 1);
        let stack = stacked(text, regions, entries, indent, count - 1)->Some_0;
        let entry = entries[count - 1];
        assert(entries.take(count) =~= entries.take(count - 1).push(entry));
        lemma_entry_push(entries.take(count - 1), entry);
        if !(indent && starts_list(regions, entry.origin) == Some(true)) {
            let planned = group_plan(text, regions, entry.origin, entry.members, indent)->Some_0;
            lemma_pushed_members(
                text,
                regions,
                stack,
                entry.origin,
                entry.members,
                planned,
                indent,
            );
        }
    } else {
        assert(entries.take(0) =~= Seq::empty());
    }
}

/// A list command on several selections moves the items of each selection once. Of an
/// outdent no selected item is left out; an indent leaves out those that have no item before
/// them to go into. A selection that touches no list that can be moved is no member of any
/// group: `i` is the number of a selection.
pub proof fn law_selected_items_move_once(
    text: Seq<char>,
    regions: Seq<HtmlModel>,
    selections: Seq<ListSelection>,
    indent: bool,
    groups: Seq<GroupView>,
    i: int,
)
    requires
        selections.len() <= usize::MAX,
        grouped_items(text, regions, selections, indent) == Some(groups),
        0 <= i < selections.len(),
    ensures
        ({
            let member = GroupMember { index: i as usize, selection: selections[i].selection };
            let times = group_members(groups).count(member);
            &&& times <= 1
            &&& origin_span(regions, selections[i]) is None ==> times == 0
            &&& !indent && origin_span(regions, selections[i]) is Some ==> times == 1
        }),
{
    let member = GroupMember { index: i as usize, selection: selections[i].selection };
    let entries = sorted_entries(regions, selections, selections.len() as int)->Some_0;
    let kept = absorbed(regions, entries)->Some_0;
    lemma_sorted_entry_members(regions, selections, selections.len() as int, i, member);
    lemma_absorbed_members(regions, entries);
    lemma_stacked_members(text, regions, kept, indent, kept.len() as int);
    assert(kept.take(kept.len() as int) =~= kept);
}

/// The selection that stands for two holds both, and nothing before the first or behind the
/// last of them.
pub proof fn law_hull_holds_both(left: ListSelection, right: ListSelection)
    ensures
        ({
            let both = hull(left, right);
            &&& both.start() <= left.start() && both.start() <= right.start()
            &&& left.end() <= both.end() && right.end() <= both.end()
            &&& both.start() == left.start() || both.start() == right.start()
            &&& both.end() == left.end() || both.end() == right.end()
            &&& both.selection.anchor.value <= both.selection.focus.value
        }),
{
}

/// The least and the greatest end are ends of a member, and all others lie between them:
/// `i` is the number of a member.
pub proof fn law_ends_lie_between(offsets: Seq<(usize, usize)>, count: int, i: int)
    requires
        0 <= i < count <= offsets.len(),
    ensures
        ({
            let (a, f) = offsets[i];
            &&& least_offset(offsets, count) matches Some(low) && low <= a && low <= f
            &&& greatest_offset(offsets, count) matches Some(high) && a <= high && f <= high
        }),
        exists|k: int|
            0 <= k < count && (least_offset(offsets, count) == Some((#[trigger] offsets[k]).0)
                || least_offset(offsets, count) == Some(offsets[k].1)),
        exists|k: int|
            0 <= k < count && (greatest_offset(offsets, count) == Some((#[trigger] offsets[k]).0)
                || greatest_offset(offsets, count) == Some(offsets[k].1)),
    decreases count,
{
    if count > 1 {
        law_ends_lie_between(
            offsets,
            count - 1,
            if i < count - 1 {
                i
            } else {
                0
            },
        );
    } else {
        assert(least_offset(offsets, 0) is None);
        assert(greatest_offset(offsets, 0) is None);
    }
    assert(offsets[count - 1] == offsets[count - 1]);
}

} // verus!
