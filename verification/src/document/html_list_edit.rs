//! Turning planned list groups into one transaction with the selections behind it.
use crate::document::html_list::{ListPlan, ListPlanView};
use crate::document::html_list_groups::{
    compact_list_exits, compacted, lemma_inner_range, plan_views, ParsedGap,
};
use crate::document::html_list_selection::{
    group_html_list_items, group_views, grouped_items, least_offset, offsets_fit, regions_wf,
    single_group, single_html_list_group, GroupView, HtmlIndentGroup, ListSelection,
};
use crate::edit::{
    edit_views, edited, edited_over, growth, inverse_edits, kept_place, law_inserted_text_stands,
    lemma_inverse_start, lemma_kept_boundary, ordered_edits, Edit, EditView,
};
use crate::html::{span_wf, HtmlModel};
use crate::offset::ByteOffset;
use crate::selection::{CaretAffinity, EditorSelection, Selections};
use crate::text::{
    boundary, byte_len, lemma_boundary_bounds, lemma_boundary_ends, same_text, slice, sliceable,
    span, text_len,
};
use vstd::prelude::*;

verus! {

/// Where a selection stands after an edit.
#[derive(Clone, Copy, Debug, PartialEq, Eq, Structural)]
pub struct MovedSelection {
    pub anchor: u64,
    pub focus: u64,
    pub affinity: CaretAffinity,
}

impl MovedSelection {
    /// The first selected offset.
    pub open spec fn low(self) -> int {
        if self.anchor < self.focus {
            self.anchor as int
        } else {
            self.focus as int
        }
    }

    /// The offset behind the selection.
    pub open spec fn high(self) -> int {
        if self.anchor < self.focus {
            self.focus as int
        } else {
            self.anchor as int
        }
    }
}

/// The edits of the groups.
pub open spec fn group_edits(groups: Seq<GroupView>) -> Seq<EditView> {
    groups.map_values(
        |g: GroupView|
            EditView { start: g.range.start as int, end: g.range.end as int, text: g.text },
    )
}

/// Where source offset `at`, which no group from the `k`-th on moves, stands
/// after the edits. `None` where it lies inside a rewritten range.
pub open spec fn passive(edits: Seq<EditView>, at: int, k: int) -> Option<int>
    decreases edits.len() - k,
{
    if k >= edits.len() || at <= edits[k].start {
        Some(at + growth(edits.take(k)))
    } else if at < edits[k].end {
        None
    } else {
        passive(edits, at, k + 1)
    }
}

/// Whether one group is in order: it rewrites a slice that is not empty, and each
/// member has endpoints in its replacement.
pub open spec fn group_wf(text: Seq<char>, group: GroupView) -> bool {
    &&& span_wf(text, group.range)
    &&& group.range.start < group.range.end
    &&& group.members.len() == group.offsets.len()
    &&& offsets_fit(group.text, group.offsets)
}

/// Whether the groups follow each other without overlap.
pub open spec fn groups_ordered(groups: Seq<GroupView>) -> bool {
    forall|i: int, j: int|
        #![trigger groups[i], groups[j]]
        0 <= i < j < groups.len() ==> groups[i].range.end <= groups[j].range.start
}

/// Whether every member names a selection, and no selection is named twice.
pub open spec fn members_distinct(groups: Seq<GroupView>, count: int) -> bool {
    &&& forall|g: int, k: int|
        0 <= g < groups.len() && 0 <= k < groups[g].members.len() ==> (
        #[trigger] groups[g].members[k]).index < count
    &&& forall|g: int, k: int, h: int, m: int|
        #![trigger groups[g].members[k], groups[h].members[m]]
        0 <= g < groups.len() && 0 <= k < groups[g].members.len() && 0 <= h < groups.len() && 0 <= m
            < groups[h].members.len() && groups[g].members[k].index == groups[h].members[m].index
            ==> g == h && k == m
}

/// Whether selection `i` is a member of a group.
pub open spec fn is_member(groups: Seq<GroupView>, i: int) -> bool {
    exists|g: int, k: int|
        0 <= g < groups.len() && 0 <= k < groups[g].members.len() && (
        #[trigger] groups[g].members[k]).index == i
}

/// Whether `moved` says where every selection goes: members to their endpoints in
/// the replacement, all others along with the source around them.
pub open spec fn moves(
    groups: Seq<GroupView>,
    selections: Seq<EditorSelection>,
    moved: Seq<MovedSelection>,
) -> bool {
    let edits = group_edits(groups);
    &&& moved.len() == selections.len()
    &&& forall|g: int, k: int|
        0 <= g < groups.len() && 0 <= k < groups[g].members.len() ==> member_moved(
            groups,
            g,
            k,
            moved[(#[trigger] groups[g].members[k]).index as int],
        )
    &&& forall|i: int|
        0 <= i < selections.len() && !is_member(groups, i) ==> passive_moved(
            edits,
            selections[i],
            #[trigger] moved[i],
        )
}

/// Whether `moved` is where member `k` of group `g` goes.
pub open spec fn member_moved(groups: Seq<GroupView>, g: int, k: int, moved: MovedSelection)
    -> bool {
    let base = groups[g].range.start + growth(group_edits(groups).take(g));
    &&& moved.anchor == base + groups[g].offsets[k].0
    &&& moved.focus == base + groups[g].offsets[k].1
    &&& moved.affinity == groups[g].members[k].selection.affinity
}

/// Whether `moved` is where a selection outside the groups goes.
pub open spec fn passive_moved(
    edits: Seq<EditView>,
    selection: EditorSelection,
    moved: MovedSelection,
) -> bool {
    &&& passive(edits, selection.anchor.value as int, 0) == Some(moved.anchor as int)
    &&& passive(edits, selection.focus.value as int, 0) == Some(moved.focus as int)
    &&& moved.affinity == selection.affinity
}

/// Whether two selections share a byte, or meet where one of them is a caret.
pub open spec fn collide(a: MovedSelection, b: MovedSelection) -> bool {
    ||| a.low() < b.high() && b.low() < a.high()
    ||| (a.low() == a.high() || b.low() == b.high()) && a.low() <= b.high() && b.low() <= a.high()
}

/// Whether no two selections collide.
pub open spec fn apart(moved: Seq<MovedSelection>) -> bool {
    forall|i: int, j: int|
        #![trigger moved[i], moved[j]]
        0 <= i < j < moved.len() ==> !collide(moved[i], moved[j])
}

/// Whether some group changes the source.
pub open spec fn changes_source(text: Seq<char>, groups: Seq<GroupView>) -> bool {
    exists|i: int|
        0 <= i < groups.len() && (#[trigger] groups[i]).text != span(
            text,
            groups[i].range.start as int,
            groups[i].range.end as int,
        )
}

/// Whether the groups can be carried out on `text` with these selections.
pub open spec fn groups_valid(text: Seq<char>, selections: Selections, groups: Seq<GroupView>)
    -> bool {
    &&& groups.len() > 0
    &&& selections.table is None
    &&& forall|i: int| 0 <= i < groups.len() ==> group_wf(text, #[trigger] groups[i])
    &&& groups_ordered(groups)
    &&& members_distinct(groups, selections.ranges@.len() as int)
    &&& changes_source(text, groups)
    &&& byte_len(text) + growth(group_edits(groups)) <= u64::MAX
}

/// Whether `moved` is an acceptable outcome for the selections.
pub open spec fn outcome(
    text: Seq<char>,
    selections: Selections,
    groups: Seq<GroupView>,
    moved: Seq<MovedSelection>,
) -> bool {
    moves(groups, selections.ranges@, moved) && apart(moved)
}

/// One transaction, with where every selection goes.
#[derive(Debug)]
pub struct PreparedIndent {
    pub edits: Vec<Edit>,
    pub endpoints: Vec<MovedSelection>,
}

fn group_is_valid(source: &str, group: &HtmlIndentGroup) -> (r: bool)
    ensures
        r == group_wf(source@, group@),
{
    if group.range.start >= group.range.end || !source.is_char_boundary(group.range.start)
        || !source.is_char_boundary(group.range.end) || group.members.len()
        != group.offsets.len() {
        return false;
    }
    let text = group.text.as_str();
    let mut k: usize = 0;
    while k < group.offsets.len()
        invariant
            text@ == group.text@,
            k <= group.offsets@.len(),
            forall|i: int|
                0 <= i < k ==> boundary(text@, (#[trigger] group.offsets@[i]).0 as int) && boundary(
                    text@,
                    group.offsets@[i].1 as int,
                ),
        decreases group.offsets@.len() - k,
    {
        let (a, f) = group.offsets[k];
        if !text.is_char_boundary(a) || !text.is_char_boundary(f) {
            assert(!(boundary(text@, group.offsets@[k as int].0 as int) && boundary(
                text@,
                group.offsets@[k as int].1 as int,
            )));
            return false;
        }
        k += 1;
    }
    true
}

fn collides(a: MovedSelection, b: MovedSelection) -> (r: bool)
    ensures
        r == collide(a, b),
{
    let a_low: u64 = if a.anchor < a.focus {
        a.anchor
    } else {
        a.focus
    };
    let a_high: u64 = if a.anchor < a.focus {
        a.focus
    } else {
        a.anchor
    };
    let b_low: u64 = if b.anchor < b.focus {
        b.anchor
    } else {
        b.focus
    };
    let b_high: u64 = if b.anchor < b.focus {
        b.focus
    } else {
        b.anchor
    };
    (a_low < b_high && b_low < a_high) || ((a_low == a_high || b_low == b_high) && a_low <= b_high
        && b_low <= a_high)
}

fn are_apart(moved: &Vec<MovedSelection>) -> (r: bool)
    ensures
        r == apart(moved@),
{
    let mut j: usize = 0;
    while j < moved.len()
        invariant
            j <= moved@.len(),
            forall|a: int, b: int|
                #![trigger moved@[a], moved@[b]]
                0 <= a < b < j ==> !collide(moved@[a], moved@[b]),
        decreases moved@.len() - j,
    {
        let mut i: usize = 0;
        while i < j
            invariant
                i <= j < moved@.len(),
                forall|a: int| 0 <= a < i ==> !collide(#[trigger] moved@[a], moved@[j as int]),
            decreases j - i,
        {
            if collides(moved[i], moved[j]) {
                assert(collide(moved@[i as int], moved@[j as int]));
                return false;
            }
            i += 1;
        }
        j += 1;
    }
    true
}

/// How far the first `k` edits move what follows them: bytes added less bytes
/// removed, none of which lie behind `at`.
proof fn lemma_growth_step(edits: Seq<EditView>, k: int)
    requires
        0 <= k < edits.len(),
    ensures
        growth(edits.take(k + 1)) == growth(edits.take(k)) + byte_len(edits[k].text) - (
        edits[k].end - edits[k].start),
{
    assert(edits.take(k + 1).drop_last() =~= edits.take(k));
    assert(edits.take(k + 1).last() == edits[k]);
}

/// Where each group's replacement starts in the edited text, and how long the
/// edited text is. `None` where that cannot be addressed.
fn replacement_starts(source: &str, groups: &Vec<HtmlIndentGroup>) -> (r: Option<Vec<u64>>)
    requires
        forall|i: int| 0 <= i < groups@.len() ==> group_wf(source@, (#[trigger] groups@[i])@),
        groups_ordered(group_views(groups@)),
    ensures
        ({
            let views = group_views(groups@);
            let edits = group_edits(views);
            match r {
                Some(starts) => {
                    &&& byte_len(source@) + growth(edits) <= u64::MAX
                    &&& starts@.len() == groups@.len()
                    &&& forall|g: int|
                        0 <= g < groups@.len() ==> (#[trigger] starts@[g]) == groups@[g].range.start
                            + growth(edits.take(g)) && starts@[g] + byte_len(groups@[g].text@)
                            <= u64::MAX
                },
                None => byte_len(source@) + growth(edits) > u64::MAX,
            }
        }),
{
    let ghost views = group_views(groups@);
    let ghost edits = group_edits(views);
    let length = text_len(source);
    let mut starts: Vec<u64> = Vec::new();
    let mut added: u64 = 0;
    let mut removed: u64 = 0;
    let mut i: usize = 0;
    assert(edits.take(0) =~= Seq::empty());
    while i < groups.len()
        invariant
            views == group_views(groups@),
            edits == group_edits(views),
            length == byte_len(source@),
            forall|i: int| 0 <= i < groups@.len() ==> group_wf(source@, (#[trigger] groups@[i])@),
            groups_ordered(views),
            i <= groups@.len(),
            starts@.len() == i,
            growth(edits.take(i as int)) == added - removed,
            i > 0 ==> removed <= groups@[i - 1].range.end,
            i == 0 ==> removed == 0,
            removed <= length,
            forall|g: int|
                0 <= g < i ==> (#[trigger] starts@[g]) == groups@[g].range.start + growth(
                    edits.take(g),
                ) && starts@[g] + byte_len(groups@[g].text@) <= groups@[i - 1].range.end + added
                    - removed,
        decreases groups@.len() - i,
    {
        let group = &groups[i];
        assert(group_wf(source@, groups@[i as int]@));
        assert(views[i as int] == group@);
        assert(edits[i as int].text == group.text@);
        proof {
            lemma_growth_step(edits, i as int);
            lemma_boundary_bounds(source@, group.range.start as int);
            lemma_boundary_bounds(source@, group.range.end as int);
            if i > 0 {
                assert(views[i - 1] == groups@[i - 1]@);
                assert(views[i - 1].range.end <= views[i as int].range.start);
            }
        }
        let start = group.range.start as u64 - removed;
        let size = text_len(group.text.as_str()) as u64;
        let total = match added.checked_add(size) {
            Some(total) => total,
            None => {
                proof {
                    lemma_growth_lower(source@, views, i + 1, added + size, removed
                        + (group.range.end - group.range.start));
                }
                return None;
            },
        };
        match start.checked_add(added) {
            Some(at) => {
                starts.push(at);
            },
            None => {
                proof {
                    lemma_growth_lower(source@, views, i as int, added as int, removed as int);
                }
                return None;
            },
        }
        added = total;
        removed = removed + (group.range.end - group.range.start) as u64;
        i += 1;
    }
    proof {
        assert(edits.take(i as int) =~= edits);
        if i > 0 {
            assert(group_wf(source@, groups@[i - 1]@));
            lemma_boundary_bounds(source@, groups@[i - 1].range.end as int);
        }
    }
    let kept = length as u64 - removed;
    if kept.checked_add(added).is_none() {
        return None;
    }
    Some(starts)
}

/// What follows the first `k` groups keeps at least the bytes that they added.
proof fn lemma_growth_lower(
    text: Seq<char>,
    groups: Seq<GroupView>,
    k: int,
    added: int,
    removed: int,
)
    requires
        forall|i: int| 0 <= i < groups.len() ==> group_wf(text, #[trigger] groups[i]),
        groups_ordered(groups),
        0 <= k <= groups.len(),
        growth(group_edits(groups).take(k)) == added - removed,
    ensures
        k < groups.len() ==> byte_len(text) + growth(group_edits(groups)) >= groups[k].range.start
            + added - removed,
        k > 0 ==> byte_len(text) + growth(group_edits(groups)) >= groups[k - 1].range.end + added
            - removed,
    decreases groups.len() - k,
{
    let edits = group_edits(groups);
    if k < groups.len() {
        lemma_growth_step(edits, k);
        lemma_growth_lower(
            text,
            groups,
            k + 1,
            added + byte_len(groups[k].text),
            removed + (groups[k].range.end - groups[k].range.start),
        );
        if k > 0 {
            assert(groups[k - 1].range.end <= groups[k].range.start);
        }
    } else {
        assert(edits.take(k) =~= edits);
        if k > 0 {
            lemma_boundary_bounds(text, groups[k - 1].range.end as int);
        }
    }
}

fn map_passive(
    source: &str,
    groups: &Vec<HtmlIndentGroup>,
    starts: &Vec<u64>,
    at: ByteOffset,
) -> (r: Option<u64>)
    requires
        forall|i: int| 0 <= i < groups@.len() ==> group_wf(source@, (#[trigger] groups@[i])@),
        groups_ordered(group_views(groups@)),
        starts@.len() == groups@.len(),
        forall|g: int|
            0 <= g < groups@.len() ==> (#[trigger] starts@[g]) == groups@[g].range.start + growth(
                group_edits(group_views(groups@)).take(g),
            ) && starts@[g] + byte_len(groups@[g].text@) <= u64::MAX,
        byte_len(source@) + growth(group_edits(group_views(groups@))) <= u64::MAX,
        boundary(source@, at.value as int),
    ensures
        match r {
            Some(moved) => passive(group_edits(group_views(groups@)), at.value as int, 0) == Some(
                moved as int,
            ),
            None => passive(group_edits(group_views(groups@)), at.value as int, 0) is None,
        },
{
    let ghost views = group_views(groups@);
    let ghost edits = group_edits(views);
    let length = text_len(source);
    let mut k: usize = 0;
    // The place in the edited text of the end of the last group before `at`.
    let mut cut: u64 = 0;
    let mut made: u64 = 0;
    proof {
        assert(edits.take(0) =~= Seq::empty());
        lemma_boundary_bounds(source@, at.value as int);
    }
    while k < groups.len()
        invariant
            views == group_views(groups@),
            edits == group_edits(views),
            length == byte_len(source@),
            at.value <= length,
            forall|i: int| 0 <= i < groups@.len() ==> group_wf(source@, (#[trigger] groups@[i])@),
            groups_ordered(views),
            starts@.len() == groups@.len(),
            forall|g: int|
                0 <= g < groups@.len() ==> (#[trigger] starts@[g]) == groups@[g].range.start
                    + growth(edits.take(g)) && starts@[g] + byte_len(groups@[g].text@) <= u64::MAX,
            byte_len(source@) + growth(edits) <= u64::MAX,
            k <= groups@.len(),
            cut <= at.value,
            made == cut + growth(edits.take(k as int)),
            passive(edits, at.value as int, k as int) == passive(edits, at.value as int, 0),
        decreases groups@.len() - k,
    {
        let group = &groups[k];
        assert(group_wf(source@, groups@[k as int]@));
        assert(views[k as int] == group@);
        if at.value <= group.range.start as u64 {
            proof {
                assert(starts@[k as int] + byte_len(groups@[k as int].text@) <= u64::MAX);
                assert(starts@[k as int] == group.range.start + growth(edits.take(k as int)));
            }
            return Some(made + (at.value - cut));
        }
        if at.value < group.range.end as u64 {
            return None;
        }
        proof {
            lemma_growth_step(edits, k as int);
            assert(starts@[k as int] + byte_len(groups@[k as int].text@) <= u64::MAX);
        }
        cut = group.range.end as u64;
        made = starts[k] + text_len(group.text.as_str()) as u64;
        k += 1;
    }
    assert(edits.take(k as int) =~= edits);
    Some(made + (at.value - cut))
}

/// The members of all groups name distinct selections.
fn members_are_distinct(groups: &Vec<HtmlIndentGroup>, count: usize) -> (r: bool)
    ensures
        r == members_distinct(group_views(groups@), count as int),
{
    let ghost views = group_views(groups@);
    let mut g: usize = 0;
    while g < groups.len()
        invariant
            views == group_views(groups@),
            g <= groups@.len(),
            forall|a: int, k: int|
                0 <= a < g && 0 <= k < views[a].members.len() ==> (
                #[trigger] views[a].members[k]).index < count,
            forall|a: int, k: int, b: int, m: int|
                #![trigger views[a].members[k], views[b].members[m]]
                0 <= a < g && 0 <= k < views[a].members.len() && 0 <= b < g && 0 <= m
                    < views[b].members.len() && views[a].members[k].index
                    == views[b].members[m].index ==> a == b && k == m,
        decreases groups@.len() - g,
    {
        assert(views[g as int].members == groups@[g as int].members@);
        let mut k: usize = 0;
        while k < groups[g].members.len()
            invariant
                views == group_views(groups@),
                g < groups@.len(),
                views[g as int].members == groups@[g as int].members@,
                k <= groups@[g as int].members@.len(),
                forall|a: int, i: int|
                    0 <= a < g && 0 <= i < views[a].members.len() ==> (
                    #[trigger] views[a].members[i]).index < count,
                forall|i: int| 0 <= i < k ==> (#[trigger] views[g as int].members[i]).index < count,
                forall|a: int, i: int, b: int, m: int|
                    #![trigger views[a].members[i], views[b].members[m]]
                    0 <= a <= g && 0 <= i < views[a].members.len() && 0 <= b <= g && 0 <= m
                        < views[b].members.len() && (a < g || i < k) && (b < g || m < k)
                        && views[a].members[i].index == views[b].members[m].index ==> a == b && i
                        == m,
            decreases groups@[g as int].members@.len() - k,
        {
            let index = groups[g].members[k].index;
            if index >= count {
                assert(views[g as int].members[k as int].index >= count);
                return false;
            }
            if named_before(groups, g, k, index) {
                return false;
            }
            k += 1;
        }
        g += 1;
    }
    true
}

/// Whether a member before member `k` of group `g` names selection `index`.
fn named_before(groups: &Vec<HtmlIndentGroup>, g: usize, k: usize, index: usize) -> (r: bool)
    requires
        g < groups@.len(),
        k < groups@[g as int].members@.len(),
        groups@[g as int].members@[k as int].index == index,
    ensures
        ({
            let views = group_views(groups@);
            r <==> exists|a: int, i: int|
                0 <= a <= g && 0 <= i < views[a].members.len() && (a < g || i < k) && (
                #[trigger] views[a].members[i]).index == index
        }),
{
    let ghost views = group_views(groups@);
    let mut a: usize = 0;
    while a <= g
        invariant
            views == group_views(groups@),
            g < groups@.len(),
            k < groups@[g as int].members@.len(),
            groups@[g as int].members@[k as int].index == index,
            a <= g + 1,
            forall|b: int, i: int|
                0 <= b < a && 0 <= i < views[b].members.len() && (b < g || i < k) ==> (
                #[trigger] views[b].members[i]).index != index,
        decreases g + 1 - a,
    {
        assert(views[a as int].members == groups@[a as int].members@);
        let count = groups.len();
        let limit: usize = if a < g {
            groups[a].members.len()
        } else {
            k
        };
        let mut i: usize = 0;
        while i < limit
            invariant
                views == group_views(groups@),
                a <= g < groups@.len(),
                k < groups@[g as int].members@.len(),
                groups@[g as int].members@[k as int].index == index,
                views[a as int].members == groups@[a as int].members@,
                i <= limit <= groups@[a as int].members@.len(),
                limit == (if a < g {
                    groups@[a as int].members@.len()
                } else {
                    k as nat
                }),
                forall|m: int|
                    0 <= m < i ==> (#[trigger] views[a as int].members[m]).index != index,
            decreases limit - i,
        {
            if groups[a].members[i].index == index {
                proof {
                    assert(views[a as int].members[i as int].index == index);
                    assert(views[g as int].members == groups@[g as int].members@);
                    assert(views[g as int].members[k as int].index == index);
                }
                return true;
            }
            i += 1;
        }
        a += 1;
    }
    false
}

/// There is at most one way to move the selections.
proof fn lemma_moves_unique(
    groups: Seq<GroupView>,
    selections: Seq<EditorSelection>,
    a: Seq<MovedSelection>,
    b: Seq<MovedSelection>,
)
    requires
        moves(groups, selections, a),
        moves(groups, selections, b),
    ensures
        a == b,
{
    assert forall|i: int| 0 <= i < a.len() implies a[i] == b[i] by {
        if is_member(groups, i) {
            let (g, k) = choose|g: int, k: int|
                0 <= g < groups.len() && 0 <= k < groups[g].members.len() && (
                #[trigger] groups[g].members[k]).index == i;
            assert(member_moved(groups, g, k, a[groups[g].members[k].index as int]));
            assert(member_moved(groups, g, k, b[groups[g].members[k].index as int]));
        } else {
            assert(passive_moved(group_edits(groups), selections[i], a[i]));
            assert(passive_moved(group_edits(groups), selections[i], b[i]));
        }
    }
    assert(a =~= b);
}

/// Whether the groups can be carried out and leave the selections apart.
pub open spec fn preparable(text: Seq<char>, selections: Selections, groups: Seq<GroupView>) -> bool {
    groups_valid(text, selections, groups) && exists|moved: Seq<MovedSelection>| #[trigger]
        outcome(text, selections, groups, moved)
}

fn groups_are_valid(source: &str, selections: &Selections, groups: &Vec<HtmlIndentGroup>) -> (r:
    Option<Vec<u64>>)
    ensures
        ({
            let views = group_views(groups@);
            match r {
                Some(starts) => {
                    &&& groups_valid(source@, *selections, views)
                    &&& starts@.len() == groups@.len()
                    &&& forall|g: int|
                        0 <= g < groups@.len() ==> (#[trigger] starts@[g]) == groups@[g].range.start
                            + growth(group_edits(views).take(g)) && starts@[g] + byte_len(
                            groups@[g].text@,
                        ) <= u64::MAX
                },
                None => !groups_valid(source@, *selections, views),
            }
        }),
{
    let ghost views = group_views(groups@);
    if groups.len() == 0 || selections.table.is_some() {
        return None;
    }
    let mut changed = false;
    let mut i: usize = 0;
    while i < groups.len()
        invariant
            views == group_views(groups@),
            i <= groups@.len(),
            forall|k: int| 0 <= k < i ==> group_wf(source@, (#[trigger] groups@[k])@),
            forall|a: int, b: int|
                #![trigger views[a], views[b]]
                0 <= a < b < i ==> views[a].range.end <= views[b].range.start,
            changed <==> exists|k: int|
                0 <= k < i && (#[trigger] views[k]).text != span(
                    source@,
                    views[k].range.start as int,
                    views[k].range.end as int,
                ),
        decreases groups@.len() - i,
    {
        let group = &groups[i];
        assert(views[i as int] == group@);
        if !group_is_valid(source, group) {
            assert(!group_wf(source@, views[i as int]));
            return None;
        }
        if i > 0 && groups[i - 1].range.end > group.range.start {
            assert(views[i - 1] == groups@[i - 1]@);
            assert(!(views[i - 1].range.end <= views[i as int].range.start));
            return None;
        }
        proof {
            assert forall|a: int| 0 <= a < i implies (#[trigger] views[a]).range.end
                <= views[i as int].range.start by {
                if a < i - 1 {
                    assert(views[a].range.end <= views[i - 1].range.start);
                    assert(group_wf(source@, groups@[i - 1]@));
                }
                assert(views[i - 1] == groups@[i - 1]@);
            }
        }
        if !same_text(
            group.text.as_str(),
            slice(source, group.range.start, group.range.end),
        ) {
            changed = true;
        }
        i += 1;
    }
    if !changed || !members_are_distinct(groups, selections.ranges.len()) {
        return None;
    }
    proof {
        assert forall|k: int| 0 <= k < views.len() implies group_wf(
            source@,
            #[trigger] views[k],
        ) by {
            assert(group_wf(source@, groups@[k]@));
        }
    }
    replacement_starts(source, groups)
}

/// Prepares one transaction for all groups. `None` where they overlap, change
/// nothing, or would leave selections that collide; also where a selection that
/// belongs to no group lies inside a rewritten range.
pub fn prepare_html_list_edit(
    source: &str,
    selections: &Selections,
    groups: &Vec<HtmlIndentGroup>,
) -> (r: Option<PreparedIndent>)
    requires
        selections.wf(source@),
    ensures
        ({
            let views = group_views(groups@);
            match r {
                Some(prepared) => {
                    &&& groups_valid(source@, *selections, views)
                    &&& outcome(source@, *selections, views, prepared.endpoints@)
                    &&& edit_views(prepared.edits@) == group_edits(views)
                    &&& ordered_edits(source@, edit_views(prepared.edits@))
                },
                None => !preparable(source@, *selections, views),
            }
        }),
{
    let ghost views = group_views(groups@);
    let ghost edits = group_edits(views);
    let starts = match groups_are_valid(source, selections, groups) {
        Some(starts) => starts,
        None => {
            return None;
        },
    };
    let count: usize = selections.ranges.len();
    let mut slots: Vec<Option<MovedSelection>> = Vec::new();
    let mut n: usize = 0;
    while n < count
        invariant
            n <= count,
            slots@.len() == n,
            forall|i: int| 0 <= i < n ==> (#[trigger] slots@[i]) is None,
        decreases count - n,
    {
        slots.push(None);
        n += 1;
    }
    proof {
        assert forall|k: int| 0 <= k < groups@.len() implies group_wf(
            source@,
            (#[trigger] groups@[k])@,
        ) && starts@[k] == groups@[k].range.start + growth(edits.take(k)) && starts@[k] + byte_len(
            groups@[k].text@,
        ) <= u64::MAX by {
            assert(group_wf(source@, views[k]));
            assert(starts@[k] + byte_len(groups@[k].text@) <= u64::MAX);
        }
    }
    place_members(groups, &starts, &mut slots);
    let mut endpoints: Vec<MovedSelection> = Vec::new();
    let mut i: usize = 0;
    while i < count
        invariant
            selections.wf(source@),
            count == selections.ranges@.len(),
            views == group_views(groups@),
            edits == group_edits(views),
            groups_valid(source@, *selections, views),
            forall|k: int| 0 <= k < groups@.len() ==> group_wf(source@, (#[trigger] groups@[k])@),
            starts@.len() == groups@.len(),
            forall|g: int|
                0 <= g < groups@.len() ==> (#[trigger] starts@[g]) == groups@[g].range.start
                    + growth(edits.take(g)) && starts@[g] + byte_len(groups@[g].text@) <= u64::MAX,
            slots@.len() == count,
            forall|k: int|
                0 <= k < count ==> ((#[trigger] slots@[k]) is Some <==> is_member(views, k)),
            forall|g: int, k: int|
                0 <= g < views.len() && 0 <= k < views[g].members.len() ==> slots@[(
                #[trigger] views[g].members[k]).index as int] is Some && member_moved(
                    views,
                    g,
                    k,
                    slots@[views[g].members[k].index as int]->0,
                ),
            i <= count,
            endpoints@.len() == i,
            forall|k: int|
                0 <= k < i ==> if slots@[k] is Some {
                    #[trigger] endpoints@[k] == slots@[k]->0
                } else {
                    passive_moved(edits, selections.ranges@[k], endpoints@[k])
                },
        decreases count - i,
    {
        match slots[i] {
            Some(moved) => {
                endpoints.push(moved);
            },
            None => {
                let selection = selections.ranges[i];
                assert(selections.ranges@[i as int].wf(source@));
                let anchor = map_passive(source, groups, &starts, selection.anchor);
                let focus = map_passive(source, groups, &starts, selection.focus);
                match (anchor, focus) {
                    (Some(anchor), Some(focus)) => {
                        endpoints.push(
                            MovedSelection { anchor, focus, affinity: selection.affinity },
                        );
                    },
                    _ => {
                        proof {
                            if preparable(source@, *selections, views) {
                                let moved = choose|moved: Seq<MovedSelection>| #[trigger]
                                    outcome(source@, *selections, views, moved);
                                assert(!is_member(views, i as int));
                                assert(passive_moved(
                                    edits,
                                    selections.ranges@[i as int],
                                    moved[i as int],
                                ));
                            }
                        }
                        return None;
                    },
                }
            },
        }
        i += 1;
    }
    proof {
        assert forall|g: int, k: int|
            0 <= g < views.len() && 0 <= k < views[g].members.len() implies member_moved(
            views,
            g,
            k,
            endpoints@[(#[trigger] views[g].members[k]).index as int],
        ) by {
            let index = views[g].members[k].index as int;
            assert(index < count);
            assert(endpoints@[index] == slots@[index]->0);
        }
        assert forall|k: int| 0 <= k < count && !is_member(views, k) implies passive_moved(
            edits,
            selections.ranges@[k],
            #[trigger] endpoints@[k],
        ) by {
            assert(slots@[k] is None);
        }
        assert(moves(views, selections.ranges@, endpoints@));
    }
    if !are_apart(&endpoints) {
        proof {
            if preparable(source@, *selections, views) {
                let moved = choose|moved: Seq<MovedSelection>| #[trigger]
                    outcome(source@, *selections, views, moved);
                lemma_moves_unique(views, selections.ranges@, moved, endpoints@);
            }
        }
        return None;
    }
    let made = collect_edits(groups);
    proof {
        assert forall|k: int| 0 <= k < edits.len() implies sliceable(
            source@,
            (#[trigger] edits[k]).start,
            edits[k].end,
        ) by {
            assert(group_wf(source@, views[k]));
        }
        assert forall|a: int, b: int|
            #![trigger edits[a], edits[b]]
            0 <= a < b < edits.len() implies edits[a].end <= edits[b].start by {
            assert(views[a].range.end <= views[b].range.start);
        }
    }
    Some(PreparedIndent { edits: made, endpoints })
}

/// Where a passive offset goes is where the edits keep it.
proof fn lemma_passive_place(text: Seq<char>, edits: Seq<EditView>, at: int, k: int)
    requires
        ordered_edits(text, edits),
        0 <= k <= edits.len(),
        passive(edits, at, k) is Some,
    ensures
        !edited_over(edits.skip(k), at),
        ({
            let cursor = if k == 0 {
                0
            } else {
                edits[k - 1].end
            };
            passive(edits, at, k) == Some(
                kept_place(edits.skip(k), cursor, at, cursor + growth(edits.take(k))),
            )
        }),
    decreases edits.len() - k,
{
    let rest = edits.skip(k);
    let ahead = k < edits.len() && at > edits[k].start;
    if ahead {
        lemma_passive_place(text, edits, at, k + 1);
        assert(rest.drop_first() =~= edits.skip(k + 1));
        assert(rest[0] == edits[k]);
        lemma_growth_step(edits, k);
    }
    if edited_over(rest, at) {
        let i = choose|i: int| 0 <= i < rest.len() && (#[trigger] rest[i]).start < at < rest[i].end;
        assert(rest[i] == edits[k + i]);
        if ahead && i > 0 {
            assert(edits.skip(k + 1)[i - 1] == rest[i]);
        }
        assert(sliceable(text, edits[k].start, edits[k].end));
        if i > 0 {
            assert(edits[k].end <= edits[k + i].start);
        }
    }
}

proof fn lemma_passive_boundary(text: Seq<char>, edits: Seq<EditView>, at: int, moved: int)
    requires
        ordered_edits(text, edits),
        boundary(text, at),
        passive(edits, at, 0) == Some(moved),
    ensures
        boundary(edited(text, edits), moved),
{
    let empty = Seq::<char>::empty();
    lemma_passive_place(text, edits, at, 0);
    assert(edits.skip(0) =~= edits);
    assert(edits.take(0) =~= Seq::empty());
    lemma_boundary_bounds(text, at);
    lemma_boundary_ends(text);
    if edits.len() > 0 {
        assert(sliceable(text, edits[0].start, edits[0].end));
        lemma_boundary_bounds(text, edits[0].start);
    }
    lemma_kept_boundary(empty, text, 0, edits, at);
    assert(empty + edited(text, edits) =~= edited(text, edits));
    assert(vstd::utf8::encode_utf8(empty) =~= Seq::<u8>::empty());
}

proof fn lemma_member_boundary(text: Seq<char>, groups: Seq<GroupView>, g: int, offset: int)
    requires
        ordered_edits(text, group_edits(groups)),
        0 <= g < groups.len(),
        boundary(groups[g].text, offset),
    ensures
        boundary(
            edited(text, group_edits(groups)),
            groups[g].range.start + growth(group_edits(groups).take(g)) + offset,
        ),
{
    let edits = group_edits(groups);
    law_inserted_text_stands(text, edits, g);
    lemma_inverse_start(text, 0, edits, 0, g);
    let back = inverse_edits(text, 0, edits, 0)[g];
    lemma_inner_range(edited(text, edits), back.start, back.end, offset);
}

/// Groups that can be carried out have their edits in order.
proof fn lemma_groups_ordered(text: Seq<char>, selections: Selections, groups: Seq<GroupView>)
    requires
        groups_valid(text, selections, groups),
    ensures
        ordered_edits(text, group_edits(groups)),
{
    let edits = group_edits(groups);
    assert forall|k: int| 0 <= k < edits.len() implies sliceable(
        text,
        (#[trigger] edits[k]).start,
        edits[k].end,
    ) by {
        assert(group_wf(text, groups[k]));
    }
    assert forall|a: int, b: int|
        #![trigger edits[a], edits[b]]
        0 <= a < b < edits.len() implies edits[a].end <= edits[b].start by {
        assert(groups[a].range.end <= groups[b].range.start);
    }
}

/// Whether both ends of a moved selection lie between characters.
pub open spec fn ends_between(text: Seq<char>, moved: MovedSelection) -> bool {
    boundary(text, moved.anchor as int) && boundary(text, moved.focus as int)
}

/// A list command leaves every selection between characters of the new source: those that
/// moved with their items, and those that stand elsewhere.
pub proof fn law_moved_selections_fit(
    text: Seq<char>,
    selections: Selections,
    groups: Seq<GroupView>,
    moved: Seq<MovedSelection>,
    i: int,
)
    requires
        selections.wf(text),
        groups_valid(text, selections, groups),
        outcome(text, selections, groups, moved),
        0 <= i < moved.len(),
    ensures
        ends_between(edited(text, group_edits(groups)), moved[i]),
{
    let edits = group_edits(groups);
    lemma_groups_ordered(text, selections, groups);
    if is_member(groups, i) {
        let (g, k) = choose|g: int, k: int|
            0 <= g < groups.len() && 0 <= k < groups[g].members.len() && (
            #[trigger] groups[g].members[k]).index == i;
        assert(member_moved(groups, g, k, moved[groups[g].members[k].index as int]));
        assert(group_wf(text, groups[g]));
        assert(boundary(groups[g].text, groups[g].offsets[k].0 as int));
        lemma_member_boundary(text, groups, g, groups[g].offsets[k].0 as int);
        lemma_member_boundary(text, groups, g, groups[g].offsets[k].1 as int);
    } else {
        assert(passive_moved(edits, selections.ranges@[i], moved[i]));
        assert(selections.ranges@[i].wf(text));
        let selection = selections.ranges@[i];
        lemma_passive_boundary(
            text,
            edits,
            selection.anchor.value as int,
            moved[i].anchor as int,
        );
        lemma_passive_boundary(text, edits, selection.focus.value as int, moved[i].focus as int);
    }
}

fn collect_edits(groups: &Vec<HtmlIndentGroup>) -> (r: Vec<Edit>)
    ensures
        edit_views(r@) == group_edits(group_views(groups@)),
{
    let mut edits: Vec<Edit> = Vec::new();
    let mut i: usize = 0;
    while i < groups.len()
        invariant
            i <= groups@.len(),
            edits@.len() == i,
            forall|k: int|
                0 <= k < i ==> (#[trigger] edits@[k])@ == group_edits(group_views(groups@))[k],
        decreases groups@.len() - i,
    {
        let group = &groups[i];
        edits.push(Edit::replace(group.range.start, group.range.end, group.text.clone()));
        i += 1;
    }
    assert(edit_views(edits@) =~= group_edits(group_views(groups@)));
    edits
}

fn place_members(
    groups: &Vec<HtmlIndentGroup>,
    starts: &Vec<u64>,
    slots: &mut Vec<Option<MovedSelection>>,
)
    requires
        members_distinct(group_views(groups@), old(slots)@.len() as int),
        forall|i: int| 0 <= i < old(slots)@.len() ==> (#[trigger] old(slots)@[i]) is None,
        starts@.len() == groups@.len(),
        forall|g: int|
            0 <= g < groups@.len() ==> {
                let view = (#[trigger] groups@[g])@;
                &&& starts@[g] == view.range.start + growth(
                    group_edits(group_views(groups@)).take(g),
                )
                &&& starts@[g] + byte_len(view.text) <= u64::MAX
                &&& view.members.len() == view.offsets.len()
                &&& offsets_fit(view.text, view.offsets)
            },
    ensures
        ({
            let views = group_views(groups@);
            &&& final(slots)@.len() == old(slots)@.len()
            &&& forall|i: int|
                0 <= i < final(slots)@.len() ==> ((#[trigger] final(slots)@[i]) is Some
                    <==> is_member(views, i))
            &&& forall|g: int, k: int|
                0 <= g < views.len() && 0 <= k < views[g].members.len() ==> final(slots)@[(
                #[trigger] views[g].members[k]).index as int] is Some && member_moved(
                    views,
                    g,
                    k,
                    final(slots)@[views[g].members[k].index as int]->0,
                )
        }),
{
    let ghost views = group_views(groups@);
    let ghost edits = group_edits(views);
    let ghost count = slots@.len();
    let mut g: usize = 0;
    while g < groups.len()
        invariant
            views == group_views(groups@),
            edits == group_edits(views),
            count == slots@.len(),
            members_distinct(views, count as int),
            starts@.len() == groups@.len(),
            forall|g: int|
                0 <= g < groups@.len() ==> {
                    let view = (#[trigger] groups@[g])@;
                    &&& starts@[g] == view.range.start + growth(edits.take(g))
                    &&& starts@[g] + byte_len(view.text) <= u64::MAX
                    &&& view.members.len() == view.offsets.len()
                    &&& offsets_fit(view.text, view.offsets)
                },
            g <= groups@.len(),
            forall|i: int|
                0 <= i < count ==> ((#[trigger] slots@[i]) is Some ==> is_member(views, i)),
            forall|a: int, k: int|
                0 <= a < g && 0 <= k < views[a].members.len() ==> slots@[(
                #[trigger] views[a].members[k]).index as int] is Some && member_moved(
                    views,
                    a,
                    k,
                    slots@[views[a].members[k].index as int]->0,
                ),
        decreases groups@.len() - g,
    {
        assert(views[g as int] == groups@[g as int]@);
        let mut k: usize = 0;
        while k < groups[g].members.len()
            invariant
                views == group_views(groups@),
                edits == group_edits(views),
                count == slots@.len(),
                members_distinct(views, count as int),
                starts@.len() == groups@.len(),
                g < groups@.len(),
                views[g as int] == groups@[g as int]@,
                starts@[g as int] == views[g as int].range.start + growth(edits.take(g as int)),
                starts@[g as int] + byte_len(views[g as int].text) <= u64::MAX,
                views[g as int].members.len() == views[g as int].offsets.len(),
                offsets_fit(views[g as int].text, views[g as int].offsets),
                k <= groups@[g as int].members@.len(),
                forall|i: int|
                    0 <= i < count ==> ((#[trigger] slots@[i]) is Some ==> is_member(views, i)),
                forall|a: int, m: int|
                    0 <= a <= g && 0 <= m < views[a].members.len() && (a < g || m < k)
                        ==> slots@[(#[trigger] views[a].members[m]).index as int] is Some
                        && member_moved(
                        views,
                        a,
                        m,
                        slots@[views[a].members[m].index as int]->0,
                    ),
            decreases groups@[g as int].members@.len() - k,
        {
            let member = groups[g].members[k];
            let (anchor, focus) = groups[g].offsets[k];
            proof {
                assert(views[g as int].members[k as int] == member);
                assert(views[g as int].offsets[k as int] == (anchor, focus));
                lemma_boundary_bounds(views[g as int].text, anchor as int);
                lemma_boundary_bounds(views[g as int].text, focus as int);
            }
            let base = starts[g];
            let moved = MovedSelection {
                anchor: base + anchor as u64,
                focus: base + focus as u64,
                affinity: member.selection.affinity,
            };
            let ghost before = slots@;
            slots.set(member.index, Some(moved));
            proof {
                assert(is_member(views, member.index as int));
                assert(member_moved(views, g as int, k as int, moved));
                assert forall|a: int, m: int|
                    0 <= a <= g && 0 <= m < views[a].members.len() && (a < g || m < k
                        + 1) implies slots@[(#[trigger] views[a].members[m]).index as int] is Some
                    && member_moved(
                    views,
                    a,
                    m,
                    slots@[views[a].members[m].index as int]->0,
                ) by {
                    if views[a].members[m].index == member.index {
                        assert(a == g && m == k);
                    } else {
                        assert(before[views[a].members[m].index as int] is Some);
                    }
                }
            }
            k += 1;
        }
        g += 1;
    }
}

/// The endpoint of a group that stands first in its replacement.
pub open spec fn first_offset(offsets: Seq<(usize, usize)>) -> usize {
    match least_offset(offsets, offsets.len() as int) {
        Some(at) => at,
        None => 0,
    }
}

/// The groups as plans with a caret at their first endpoint.
pub open spec fn exit_plans(groups: Seq<GroupView>) -> Seq<ListPlanView> {
    groups.map_values(
        |g: GroupView|
            ListPlanView { range: g.range, text: g.text, caret: first_offset(g.offsets) as int },
    )
}

/// The group with its plan after neighbouring exits were joined: all endpoints
/// move by as much as the first one did.
pub open spec fn rejoined(group: GroupView, plan: ListPlanView) -> Option<GroupView> {
    let removed = first_offset(group.offsets) - plan.caret;
    if 0 <= removed && forall|i: int|
        0 <= i < group.offsets.len() ==> removed <= (#[trigger] group.offsets[i]).0 && removed
            <= group.offsets[i].1 {
        Some(
            GroupView {
                range: plan.range,
                merge_range: group.merge_range,
                text: plan.text,
                members: group.members,
                offsets: group.offsets.map_values(
                    |o: (usize, usize)| ((o.0 - removed) as usize, (o.1 - removed) as usize),
                ),
            },
        )
    } else {
        None
    }
}

fn find_first_offset(offsets: &Vec<(usize, usize)>) -> (r: usize)
    ensures
        r == first_offset(offsets@),
{
    let mut low: Option<usize> = None;
    let mut i: usize = 0;
    while i < offsets.len()
        invariant
            i <= offsets@.len(),
            low == least_offset(offsets@, i as int),
        decreases offsets@.len() - i,
    {
        let (a, f) = offsets[i];
        let least: usize = if a < f {
            a
        } else {
            f
        };
        low = match low {
            Some(best) => if best <= least {
                Some(best)
            } else {
                Some(least)
            },
            None => Some(least),
        };
        i += 1;
    }
    match low {
        Some(at) => at,
        None => 0,
    }
}

fn rejoin(group: HtmlIndentGroup, plan: ListPlan) -> (r: Option<HtmlIndentGroup>)
    ensures
        match r {
            Some(made) => rejoined(group@, plan@) == Some(made@),
            None => rejoined(group@, plan@) is None,
        },
{
    let first = find_first_offset(&group.offsets);
    if first < plan.caret {
        return None;
    }
    let removed: usize = first - plan.caret;
    let mut offsets: Vec<(usize, usize)> = Vec::new();
    let mut i: usize = 0;
    while i < group.offsets.len()
        invariant
            removed == first_offset(group.offsets@) - plan.caret,
            i <= group.offsets@.len(),
            offsets@.len() == i,
            forall|k: int|
                0 <= k < i ==> removed <= (#[trigger] group.offsets@[k]).0 && removed
                    <= group.offsets@[k].1 && offsets@[k] == (
                    (group.offsets@[k].0 - removed) as usize,
                    (group.offsets@[k].1 - removed) as usize,
                ),
        decreases group.offsets@.len() - i,
    {
        let (a, f) = group.offsets[i];
        if a < removed || f < removed {
            assert(!(removed <= group.offsets@[i as int].0 && removed
                <= group.offsets@[i as int].1));
            return None;
        }
        offsets.push((a - removed, f - removed));
        i += 1;
    }
    let made = HtmlIndentGroup {
        range: plan.range,
        merge_range: group.merge_range,
        text: plan.text,
        members: group.members,
        offsets,
    };
    assert(made.offsets@ =~= rejoined(group@, plan@)->0.offsets);
    Some(made)
}

/// The groups of an outdent after neighbouring exits were joined.
pub open spec fn compacted_groups(text: Seq<char>, groups: Seq<GroupView>, gaps: Seq<ParsedGap>) -> Seq<
    Option<GroupView>,
> {
    let exits = Seq::new(groups.len(), |i: int| true);
    let plans = compacted(text, exit_plans(groups), exits, gaps, groups.len() as int);
    Seq::new(groups.len(), |i: int| rejoined(groups[i], plans[i]))
}

/// Joins the neighbouring exits of an outdent. `gaps` holds what was read of the
/// stretches between the groups. `None` where an endpoint would be lost.
pub fn compact_html_list_groups(source: &str, groups: Vec<HtmlIndentGroup>, gaps: &Vec<ParsedGap>) -> (r:
    Option<Vec<HtmlIndentGroup>>)
    requires
        forall|i: int|
            0 <= i < groups@.len() ==> span_wf(source@, (#[trigger] groups@[i]).range),
    ensures
        ({
            let wanted = compacted_groups(source@, group_views(groups@), gaps@);
            match r {
                Some(made) => made@.len() == groups@.len() && forall|i: int|
                    0 <= i < wanted.len() ==> #[trigger] wanted[i] == Some(made@[i]@),
                None => exists|i: int| 0 <= i < wanted.len() && (#[trigger] wanted[i]) is None,
            }
        }),
{
    let ghost views = group_views(groups@);
    let ghost wanted = compacted_groups(source@, views, gaps@);
    let mut plans: Vec<ListPlan> = Vec::new();
    let mut exits: Vec<bool> = Vec::new();
    let mut i: usize = 0;
    while i < groups.len()
        invariant
            views == group_views(groups@),
            forall|k: int|
                0 <= k < groups@.len() ==> span_wf(source@, (#[trigger] groups@[k]).range),
            i <= groups@.len(),
            plans@.len() == i,
            exits@.len() == i,
            forall|k: int| 0 <= k < i ==> (#[trigger] exits@[k]),
            forall|k: int|
                0 <= k < i ==> (#[trigger] plans@[k])@ == exit_plans(views)[k] && span_wf(
                    source@,
                    plans@[k].range,
                ),
        decreases groups@.len() - i,
    {
        let group = &groups[i];
        assert(views[i as int] == group@);
        plans.push(
            ListPlan {
                range: group.range,
                text: group.text.clone(),
                caret: find_first_offset(&group.offsets),
            },
        );
        exits.push(true);
        i += 1;
    }
    proof {
        assert(plan_views(plans@) =~= exit_plans(views));
        assert(exits@ =~= Seq::new(views.len(), |i: int| true));
    }
    compact_list_exits(source, &mut plans, &exits, gaps);
    let ghost joined = plan_views(plans@);
    let ghost all_plans = plans@;
    assert(joined.len() == views.len()) by {
        lemma_compacted_len(
            source@,
            exit_plans(views),
            exits@,
            gaps@,
            views.len() as int,
        );
    }
    let mut made: Vec<HtmlIndentGroup> = Vec::new();
    let ghost all_groups = groups@;
    let mut rest_groups = groups;
    let mut rest_plans = plans;
    // Taken from the back, then put into order again.
    while rest_groups.len() > 0
        invariant
            views == group_views(all_groups),
            joined == plan_views(all_plans),
            joined.len() == views.len(),
            wanted == Seq::new(views.len(), |i: int| rejoined(views[i], joined[i])),
            wanted == compacted_groups(source@, group_views(groups@), gaps@),
            rest_groups@.len() == rest_plans@.len(),
            rest_groups@.len() + made@.len() == views.len(),
            rest_groups@ == all_groups.take(rest_groups@.len() as int),
            rest_plans@ == all_plans.take(rest_plans@.len() as int),
            forall|k: int|
                0 <= k < made@.len() ==> wanted[views.len() - 1 - k] == Some(
                    (#[trigger] made@[k])@,
                ),
        decreases rest_groups@.len(),
    {
        let ghost at = rest_groups@.len() - 1;
        let ghost before_groups = rest_groups@;
        let ghost before_plans = rest_plans@;
        match (rest_groups.pop(), rest_plans.pop()) {
            (Some(group), Some(plan)) => {
                proof {
                    assert(before_groups[at] == all_groups[at]);
                    assert(before_plans[at] == all_plans[at]);
                    assert(views[at] == group@);
                    assert(joined[at] == plan@);
                    assert(rest_groups@ =~= all_groups.take(at));
                    assert(rest_plans@ =~= all_plans.take(at));
                    assert(wanted[at] == rejoined(group@, plan@));
                }
                match rejoin(group, plan) {
                    Some(group) => {
                        made.push(group);
                    },
                    None => {
                        assert(wanted[at] is None);
                        return None;
                    },
                }
            },
            _ => {
                return None;
            },
        }
    }
    let mut ordered: Vec<HtmlIndentGroup> = Vec::new();
    while made.len() > 0
        invariant
            ordered@.len() + made@.len() == views.len(),
            wanted.len() == views.len(),
            forall|k: int|
                0 <= k < made@.len() ==> wanted[views.len() - 1 - k] == Some(
                    (#[trigger] made@[k])@,
                ),
            forall|k: int| 0 <= k < ordered@.len() ==> wanted[k] == Some((#[trigger] ordered@[k])@),
        decreases made@.len(),
    {
        let ghost at = made@.len() - 1;
        let ghost before = made@;
        if let Some(group) = made.pop() {
            assert(before[at] == group);
            ordered.push(group);
        }
    }
    assert forall|k: int| 0 <= k < wanted.len() implies #[trigger] wanted[k] == Some(
        ordered@[k]@,
    ) by {
        assert(wanted[k] == Some(ordered@[k]@));
    }
    Some(ordered)
}

proof fn lemma_compacted_len(
    text: Seq<char>,
    plans: Seq<ListPlanView>,
    exits: Seq<bool>,
    gaps: Seq<ParsedGap>,
    count: int,
)
    requires
        count <= plans.len(),
    ensures
        compacted(text, plans, exits, gaps, count).len() == plans.len(),
    decreases count,
{
    if count > 1 {
        lemma_compacted_len(text, plans, exits, gaps, count - 1);
    }
}

/// All the groups, where there are all.
pub open spec fn all_groups(groups: Seq<Option<GroupView>>) -> Option<Seq<GroupView>> {
    if forall|i: int| 0 <= i < groups.len() ==> (#[trigger] groups[i]) is Some {
        Some(groups.map_values(|group: Option<GroupView>| group->Some_0))
    } else {
        None
    }
}

/// What a list command on several selections rewrites. `None` where it does not apply: in
/// source mode, on selected cells, or where items cannot be moved together.
pub open spec fn combined_groups(
    source_mode: bool,
    cells: bool,
    text: Seq<char>,
    regions: Seq<HtmlModel>,
    origins: Seq<ListSelection>,
    gaps: Seq<ParsedGap>,
    indent: bool,
) -> Option<Seq<GroupView>> {
    if source_mode || cells {
        None
    } else {
        match grouped_items(text, regions, origins, indent) {
            None => None,
            Some(groups) => if indent {
                Some(groups)
            } else {
                all_groups(compacted_groups(text, groups, gaps))
            },
        }
    }
}

/// Plans a list command on several selections. `cells` says that cells of a table are
/// selected; `gaps` holds what was read of the stretches between the groups: where they are
/// white space and comments alone, lists left next to each other leave no empty list
/// between them.
pub fn combined_html_list_groups(
    source_mode: bool,
    cells: bool,
    source: &str,
    regions: &Vec<HtmlModel>,
    origins: &Vec<ListSelection>,
    gaps: &Vec<ParsedGap>,
    indent: bool,
) -> (r: Option<Vec<HtmlIndentGroup>>)
    requires
        regions_wf(source@, regions@),
        forall|i: int| 0 <= i < origins@.len() ==> (#[trigger] origins@[i]).wf(source@, regions@),
    ensures
        ({
            let wanted = combined_groups(
                source_mode,
                cells,
                source@,
                regions@,
                origins@,
                gaps@,
                indent,
            );
            match r {
                Some(groups) => wanted == Some(group_views(groups@)),
                None => wanted is None,
            }
        }),
{
    if source_mode || cells {
        return None;
    }
    let groups = group_html_list_items(source, regions, origins, indent)?;
    if indent {
        return Some(groups);
    }
    let ghost views = group_views(groups@);
    let ghost wanted = compacted_groups(source@, views, gaps@);
    let made = compact_html_list_groups(source, groups, gaps)?;
    proof {
        assert(wanted.len() == made@.len());
        assert forall|i: int| 0 <= i < wanted.len() implies (#[trigger] wanted[i]) is Some by {
            assert(wanted[i] == Some(made@[i]@));
        }
        assert(all_groups(wanted)->Some_0 =~= group_views(made@));
    }
    Some(made)
}

/// What a list command rewrites: by all selections together, or by the only one.
pub open spec fn command_groups(
    source_mode: bool,
    text: Seq<char>,
    regions: Seq<HtmlModel>,
    origins: Seq<ListSelection>,
    gaps: Seq<ParsedGap>,
    selections: Selections,
    indent: bool,
) -> Option<Seq<GroupView>> {
    if selections.ranges@.len() > 1 {
        combined_groups(
            source_mode,
            selections.table is Some,
            text,
            regions,
            origins,
            gaps,
            indent,
        )
    } else if source_mode {
        None
    } else {
        match single_group(text, regions, origins[0], indent) {
            Some(group) => Some(seq![group]),
            None => None,
        }
    }
}

/// Whether there is one origin for each selection, in order.
pub open spec fn origins_match(
    text: Seq<char>,
    regions: Seq<HtmlModel>,
    origins: Seq<ListSelection>,
    selections: Selections,
) -> bool {
    &&& origins.len() == selections.ranges@.len()
    &&& forall|i: int|
        0 <= i < origins.len() ==> (#[trigger] origins[i]).selection == selections.ranges@[i]
            && origins[i].wf(text, regions)
}

/// Plans a list command. `origins` says of each selection which region it is in.
pub fn plan_html_list_command(
    source_mode: bool,
    source: &str,
    regions: &Vec<HtmlModel>,
    origins: &Vec<ListSelection>,
    gaps: &Vec<ParsedGap>,
    selections: &Selections,
    indent: bool,
) -> (r: Option<Vec<HtmlIndentGroup>>)
    requires
        selections.wf(source@),
        regions_wf(source@, regions@),
        origins_match(source@, regions@, origins@, *selections),
    ensures
        ({
            let wanted = command_groups(
                source_mode,
                source@,
                regions@,
                origins@,
                gaps@,
                *selections,
                indent,
            );
            match r {
                Some(groups) => wanted == Some(group_views(groups@)),
                None => wanted is None,
            }
        }),
{
    if selections.ranges.len() > 1 {
        let cells = selections.table.is_some();
        return combined_html_list_groups(
            source_mode,
            cells,
            source,
            regions,
            origins,
            gaps,
            indent,
        );
    }
    assert(origins@[0].wf(source@, regions@));
    let group = single_html_list_group(source_mode, source, regions, origins[0], indent)?;
    let ghost view = group@;
    let mut groups: Vec<HtmlIndentGroup> = Vec::new();
    groups.push(group);
    assert(group_views(groups@) =~= seq![view]);
    Some(groups)
}

/// Whether a list command can be carried out on the selections.
pub fn html_list_command_available(
    source_mode: bool,
    source: &str,
    regions: &Vec<HtmlModel>,
    origins: &Vec<ListSelection>,
    gaps: &Vec<ParsedGap>,
    selections: &Selections,
    indent: bool,
) -> (r: bool)
    requires
        selections.wf(source@),
        regions_wf(source@, regions@),
        origins_match(source@, regions@, origins@, *selections),
    ensures
        r == (command_groups(
            source_mode,
            source@,
            regions@,
            origins@,
            gaps@,
            *selections,
            indent,
        ) matches Some(groups) && preparable(source@, *selections, groups)),
{
    match plan_html_list_command(
        source_mode,
        source,
        regions,
        origins,
        gaps,
        selections,
        indent,
    ) {
        Some(groups) => prepare_html_list_edit(source, selections, &groups).is_some(),
        None => false,
    }
}

/// A selection outside of the moved items stays with its text: an end of it that no edit
/// replaces moves by what the edits before it add, and one inside a rewritten range has no
/// place. `k` is the number of edits before it, and `m` any edit.
pub proof fn law_other_selections_stay_with_their_text(
    edits: Seq<EditView>,
    at: int,
    k: int,
    m: int,
)
    requires
        0 <= k <= edits.len(),
        forall|i: int| 0 <= i < k ==> (#[trigger] edits[i]).start < at && edits[i].end <= at,
        k < edits.len() ==> at <= edits[k].start || at < edits[k].end,
    ensures
        k == edits.len() || at <= edits[k].start ==> passive(edits, at, 0) == Some(
            at + growth(edits.take(k)),
        ),
        k < edits.len() && edits[k].start < at ==> passive(edits, at, 0) is None,
{
    lemma_passive(edits, at, k, 0);
}

proof fn lemma_passive(edits: Seq<EditView>, at: int, k: int, from: int)
    requires
        0 <= from <= k <= edits.len(),
        forall|i: int| 0 <= i < k ==> (#[trigger] edits[i]).start < at && edits[i].end <= at,
        k < edits.len() ==> at <= edits[k].start || at < edits[k].end,
    ensures
        passive(edits, at, from) == passive(edits, at, k),
        k == edits.len() || at <= edits[k].start ==> passive(edits, at, from) == Some(
            at + growth(edits.take(k)),
        ),
        k < edits.len() && edits[k].start < at ==> passive(edits, at, from) is None,
    decreases k - from,
{
    if from < k {
        assert(edits[from].start < at && edits[from].end <= at);
        lemma_passive(edits, at, k, from + 1);
    }
}

/// Two selections are apart exactly where they share no byte and no caret of one stands in
/// the other or at its ends: `at` is any byte.
pub proof fn law_selections_apart_share_nothing(a: MovedSelection, b: MovedSelection, at: int)
    requires
        !collide(a, b),
    ensures
        !(has_byte(a, at) && has_byte(b, at)),
        a.anchor == a.focus ==> !(at == a.anchor && (has_byte(b, at) || at == b.anchor || at
            == b.focus)),
        b.anchor == b.focus ==> !(at == b.anchor && (has_byte(a, at) || at == a.anchor || at
            == a.focus)),
        !collide(b, a),
{
}

/// Two selections that share no byte, neither of them a caret, are apart.
pub proof fn law_selections_that_share_nothing_are_apart(a: MovedSelection, b: MovedSelection)
    requires
        a.anchor != a.focus,
        b.anchor != b.focus,
        forall|at: int| !(#[trigger] has_byte(a, at) && has_byte(b, at)),
    ensures
        !collide(a, b),
{
    if collide(a, b) {
        let at = if a.low() >= b.low() {
            a.low()
        } else {
            b.low()
        };
        assert(has_byte(a, at) && has_byte(b, at));
    }
}

/// Whether a selection has a byte, from whichever end it was made.
pub open spec fn has_byte(selection: MovedSelection, at: int) -> bool {
    selection.anchor <= at < selection.focus || selection.focus <= at < selection.anchor
}

/// Where neighbouring exits are joined, all ends of selections in a group move together:
/// they keep their distances, and the first stands where the joined plan has its caret.
pub proof fn law_joined_ends_keep_their_distances(group: GroupView, plan: ListPlanView, i: int)
    requires
        rejoined(group, plan) is Some,
        0 <= i < group.offsets.len(),
        plan.caret <= usize::MAX,
    ensures
        ({
            let made = rejoined(group, plan)->Some_0;
            &&& made.text == plan.text && made.range == plan.range && made.members == group.members
            &&& made.offsets.len() == group.offsets.len()
            &&& made.offsets[i].0 - plan.caret == group.offsets[i].0 - first_offset(group.offsets)
            &&& made.offsets[i].1 - plan.caret == group.offsets[i].1 - first_offset(group.offsets)
        }),
{
    let removed = first_offset(group.offsets) - plan.caret;
    assert(removed <= group.offsets[i].0 && removed <= group.offsets[i].1);
}

} // verus!
