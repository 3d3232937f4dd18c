//! Plans for whole selections of list items.
use crate::document::html_list::{
    block_name, blank, collect_items, content_holds, cuts_tag, element_tags, exit_wrapper,
    find_item, find_place, holds_caret, in_content, is_blank, is_block_name, is_in_content, is_item,
    is_list_name, is_named, is_object_name, item_at, item_body, item_in, left_of_item, list_items,
    list_name, list_parent, list_parent_through_divs, nested_plan, object_name, opening_without_id,
    place_of, plan_nested, plan_view, rename_open, renamed_open, right_of_item, source_of, span_ok,
    split_left, split_right, splits, splits_tag, without_id, ListPlan, ListPlanView, ListSpan,
};
use crate::grid::SourceSpan;
use crate::html::{is_paragraph_name, paragraph_name, HtmlModel, HtmlNode, HtmlNodeKind};
use crate::text::{
    boundary, byte_len, lemma_encode_concat, lemma_span_bytes, same_text, slice, span, text_len,
};
use vstd::prelude::*;
use vstd::string::*;
use vstd::utf8::*;

verus! {

/// Where a list of the given name ends that closes the content of `item`: the
/// start of the closing tag of the last such child with nothing but white space
/// behind it, among the first `count` children.
pub open spec fn closing_list(
    text: Seq<char>,
    nodes: Seq<HtmlNode>,
    item: HtmlNode,
    name: Seq<char>,
    count: int,
) -> Option<int>
    decreases count,
{
    if count <= 0 {
        None
    } else {
        let node = nodes[item.children@[count - 1] as int];
        let (_, item_close) = item.tags()->0;
        match node.tags() {
            Some((open, close)) if open.name@ == name && blank(
                span(text, node.source.end as int, item_close.source.start as int),
            ) => Some(close.source.start as int),
            _ => closing_list(text, nodes, item, name, count - 1),
        }
    }
}

/// The item before the one at `place`.
pub open spec fn previous_item(items: Seq<usize>, place: Option<int>) -> Option<usize> {
    match place {
        Some(at) if at > 0 => Some(items[at - 1]),
        _ => None,
    }
}

/// Items `first` to `last` once they have become the last items of a list inside
/// the item before them. A list of the same kind that closes that item takes
/// them; else they get one of their own.
pub open spec fn indent_plan(text: Seq<char>, model: HtmlModel, span_: ListSpan, caret: int)
    -> Option<ListPlanView> {
    let nodes = model.nodes@;
    let first = nodes[span_.first as int];
    let last = nodes[span_.last as int];
    let (list_open, _) = nodes[span_.list as int].tags()->0;
    let name = list_open.name@;
    let items = list_items(model, span_.list as int);
    match previous_item(items, place_of(items, span_.first)) {
        None => None,
        Some(previous) => {
            let item = nodes[previous as int];
            let (_, previous_close) = item.tags()->0;
            let existing = closing_list(text, nodes, item, name, item.children@.len() as int);
            let insertion = match existing {
                Some(at) => at,
                None => previous_close.source.start as int,
            };
            let head = (if existing is None {
                "<"@ + name + ">"@
            } else {
                Seq::empty()
            }) + span(text, previous_close.source.end as int, first.source.start as int);
            Some(
                ListPlanView {
                    range: SourceSpan { start: insertion as usize, end: last.source.end },
                    text: head + span(
                        text,
                        first.source.start as int,
                        last.source.end as int,
                    ) + (if existing is None {
                        "</"@ + name + ">"@
                    } else {
                        Seq::empty()
                    }) + span(text, insertion, previous_close.source.end as int),
                    caret: byte_len(head) + caret - first.source.start,
                },
            )
        },
    }
}

fn find_closing_list(source: &str, model: &HtmlModel, item: usize, name: &str) -> (r: Option<usize>)
    requires
        model.wf(source@),
        item < model.nodes@.len(),
        model.nodes@[item as int].tags() is Some,
    ensures
        ({
            let node = model.nodes@[item as int];
            let wanted = closing_list(
                source@,
                model.nodes@,
                node,
                name@,
                node.children@.len() as int,
            );
            match r {
                Some(at) => wanted == Some(at as int) && boundary(source@, at as int) && (
                node.tags() matches Some((open, close)) && open.source.end <= at
                    <= close.source.start),
                None => wanted is None,
            }
        }),
{
    let item_node = &model.nodes[item];
    let ghost nodes = model.nodes@;
    assert(nodes[item as int].wf(source@));
    let limit = match element_tags(item_node) {
        Some((_, close)) => close.source.start,
        None => 0,
    };
    let mut i: usize = item_node.children.len();
    while i > 0
        invariant
            model.wf(source@),
            nodes == model.nodes@,
            item < nodes.len(),
            *item_node == nodes[item as int],
            nodes[item as int].wf(source@),
            item_node.tags() matches Some((_, close)) && close.source.start == limit,
            i <= item_node.children@.len(),
            closing_list(source@, nodes, *item_node, name@, i as int) == closing_list(
                source@,
                nodes,
                *item_node,
                name@,
                item_node.children@.len() as int,
            ),
        decreases i,
    {
        let child = item_node.children[i - 1];
        proof {
            let c = nodes[item as int].children@[i - 1];
            assert(c < nodes.len());
            assert(nodes[c as int].wf(source@));
            assert(nodes[item as int].encloses(nodes[c as int].source));
        }
        let node = &model.nodes[child];
        if let Some((open, close)) = element_tags(node) {
            if same_text(open.name.as_str(), name) && is_blank(
                slice(source, node.source.end, limit),
            ) {
                return Some(close.source.start);
            }
        }
        i -= 1;
    }
    None
}

/// Plans to indent the items of `span_`, with the caret at source offset `caret`
/// of them. `None` where no item stands before them.
pub fn html_list_indent_for(source: &str, model: &HtmlModel, span_: ListSpan, caret: usize) -> (r:
    Option<ListPlan>)
    requires
        model.wf(source@),
        exists|start: int, end: int| #[trigger] span_ok(*model, span_, start, end),
        model.nodes@[span_.first as int].source.start <= caret
            <= model.nodes@[span_.last as int].source.end,
    ensures
        plan_view(r) == indent_plan(source@, *model, span_, caret as int),
{
    let ghost text = source@;
    let first = &model.nodes[span_.first];
    let last = &model.nodes[span_.last];
    let items = collect_items(Ghost(text), model, span_.list);
    let place = find_place(&items, span_.first)?;
    if place == 0 {
        return None;
    }
    let previous = items[place - 1];
    proof {
        assert(item_in(model.nodes@, span_.list as int, items@[place - 1]));
        assert(items@[place as int] == span_.first);
        assert(model.nodes@[items@[place - 1] as int].source.end
            <= model.nodes@[items@[place as int] as int].source.start);
        assert(model.nodes@[span_.first as int].wf(text));
        assert(model.nodes@[span_.last as int].wf(text));
        assert(model.nodes@[previous as int].wf(text));
        assert(model.nodes@[span_.list as int].wf(text));
    }
    let name = match element_tags(&model.nodes[span_.list]) {
        Some((open, _)) => open.name.as_str(),
        None => {
            return None;
        },
    };
    let close = match element_tags(&model.nodes[previous]) {
        Some((_, close)) => close,
        None => {
            return None;
        },
    };
    let existing = find_closing_list(source, model, previous, name);
    let insertion: usize = match existing {
        Some(at) => at,
        None => close.source.start,
    };
    let mut made = String::new();
    if existing.is_none() {
        made.push_str("<");
        made.push_str(name);
        made.push_str(">");
    }
    made.push_str(slice(source, close.source.end, first.source.start));
    let ghost head = (if existing is None {
        "<"@ + name@ + ">"@
    } else {
        Seq::empty()
    }) + span(text, close.source.end as int, first.source.start as int);
    assert(made@ =~= head);
    let before = text_len(made.as_str());
    let moved = slice(source, first.source.start, last.source.end);
    made.push_str(moved);
    let after = text_len(made.as_str());
    proof {
        lemma_encode_concat(head, moved@);
        lemma_span_bytes(text, first.source.start as int, last.source.end as int);
    }
    let target: usize = before + (caret - first.source.start);
    let ghost so_far = made@;
    if existing.is_none() {
        made.push_str("</");
        made.push_str(name);
        made.push_str(">");
    }
    assert(made@ =~= so_far + (if existing is None {
        "</"@ + name@ + ">"@
    } else {
        Seq::empty()
    }));
    made.push_str(slice(source, insertion, close.source.end));
    Some(
        ListPlan {
            range: SourceSpan { start: insertion, end: last.source.end },
            text: made,
            caret: target,
        },
    )
}

/// The plan that moves the items of `span_` one level out of a nested list.
pub open spec fn selected_outdent(text: Seq<char>, model: HtmlModel, span_: ListSpan, caret: int)
    -> Option<ListPlanView> {
    let items = list_items(model, span_.list as int);
    match (
        list_parent(model, span_.list as int),
        place_of(items, span_.first),
        place_of(items, span_.last),
    ) {
        (Some((parent, wrappers)), Some(a), Some(b)) => Some(
            nested_plan(
                text,
                model,
                span_.list as int,
                span_.first as int,
                span_.last as int,
                a,
                b,
                parent,
                wrappers,
                caret,
            ),
        ),
        _ => None,
    }
}

/// Plans to move the items of `span_` one level out of a nested list. `None` for
/// an outermost list.
pub fn selected_html_list_outdent_for(
    source: &str,
    model: &HtmlModel,
    span_: ListSpan,
    caret: usize,
) -> (r: Option<ListPlan>)
    requires
        model.wf(source@),
        exists|start: int, end: int| #[trigger] span_ok(*model, span_, start, end),
        model.nodes@[span_.first as int].source.start <= caret,
        model.nodes@[span_.last as int].tags() matches Some((_, close)) && caret
            <= close.source.start,
    ensures
        plan_view(r) == selected_outdent(source@, *model, span_, caret as int),
{
    let ghost text = source@;
    let (parent, wrappers) = match list_parent_through_divs(Ghost(text), model, span_.list) {
        Some(found) => found,
        None => {
            return None;
        },
    };
    let items = collect_items(Ghost(text), model, span_.list);
    let a = find_place(&items, span_.first)?;
    let b = find_place(&items, span_.last)?;
    Some(
        plan_nested(
            source,
            model,
            span_.list,
            span_.first,
            span_.last,
            a,
            b,
            items.len(),
            parent,
            &wrappers,
            caret,
        ),
    )
}

/// Whether an item lies around the node: some ancestor is one.
pub open spec fn under_item(nodes: Seq<HtmlNode>, parent: Option<usize>) -> bool
    decreases
            match parent {
                Some(id) => id + 1,
                None => 0,
            },
{
    match parent {
        None => false,
        Some(id) => is_item(nodes[id as int]) || (nodes[id as int].parent matches Some(up) && up
            < id && under_item(nodes, nodes[id as int].parent)),
    }
}

/// Whether an item lies around node `id`.
pub fn is_under_item(source: &str, model: &HtmlModel, id: usize) -> (r: bool)
    requires
        model.wf(source@),
        id < model.nodes@.len(),
    ensures
        r == under_item(model.nodes@, model.nodes@[id as int].parent),
{
    let mut current: usize = id;
    loop
        invariant
            model.wf(source@),
            id < model.nodes@.len(),
            current < model.nodes@.len(),
            under_item(model.nodes@, model.nodes@[current as int].parent) == under_item(
                model.nodes@,
                model.nodes@[id as int].parent,
            ),
        decreases current,
    {
        assert(model.nodes@[current as int].parent matches Some(p) ==> p < current);
        match model.nodes[current].parent {
            None => {
                return false;
            },
            Some(up) => {
                if is_named(&model.nodes[up], "li") {
                    return true;
                }
                assert(model.nodes@[up as int].parent matches Some(p) ==> p < up);
                current = up;
            },
        }
    }
}

/// Whether one of the first `count` children of `item` is a closed block element.
pub open spec fn block_children(nodes: Seq<HtmlNode>, item: HtmlNode, count: int) -> bool {
    exists|k: int|
        0 <= k < count && (nodes[(#[trigger] item.children@[k]) as int].tags() matches Some(
            (open, _),
        ) && block_name(open.name@))
}

/// What opens the element that an item of an outermost list becomes.
pub open spec fn item_exit_open(text: Seq<char>, nodes: Seq<HtmlNode>, item: HtmlNode) -> Seq<char> {
    let (open, _) = item.tags()->0;
    renamed_open(
        text,
        open,
        exit_wrapper(block_children(nodes, item, item.children@.len() as int)),
    )
}

/// What closes the element that an item of an outermost list becomes.
pub open spec fn item_exit_close(nodes: Seq<HtmlNode>, item: HtmlNode) -> Seq<char> {
    "</"@ + exit_wrapper(block_children(nodes, item, item.children@.len() as int)) + ">"@
}

/// What precedes the body of item `k` once items `a` to `k` have left the list.
pub open spec fn before_body(
    text: Seq<char>,
    model: HtmlModel,
    items: Seq<usize>,
    head: Seq<char>,
    a: int,
    k: int,
) -> Seq<char>
    decreases k - a, 0int,
{
    let nodes = model.nodes@;
    let item = nodes[items[k] as int];
    if k <= a {
        head + item_exit_open(text, nodes, item)
    } else {
        let previous = nodes[items[k - 1] as int];
        through_item(text, model, items, head, a, k - 1) + span(
            text,
            previous.source.end as int,
            item.source.start as int,
        ) + item_exit_open(text, nodes, item)
    }
}

/// Everything through item `k` once items `a` to `k` have left the list.
pub open spec fn through_item(
    text: Seq<char>,
    model: HtmlModel,
    items: Seq<usize>,
    head: Seq<char>,
    a: int,
    k: int,
) -> Seq<char>
    decreases k - a, 1int,
{
    let item = model.nodes@[items[k] as int];
    before_body(text, model, items, head, a, k) + item_body(text, item) + item_exit_close(
        model.nodes@,
        item,
    )
}

/// Where source offset `at` stands in the replacement: in the body of the last
/// of items `a` to `k` whose content holds it.
pub open spec fn moved_point(
    text: Seq<char>,
    model: HtmlModel,
    items: Seq<usize>,
    head: Seq<char>,
    a: int,
    k: int,
    at: int,
) -> Option<int>
    decreases k - a + 1,
{
    if k < a {
        None
    } else {
        let item = model.nodes@[items[k] as int];
        if content_holds(item, at) {
            let (open, _) = item.tags()->0;
            Some(byte_len(before_body(text, model, items, head, a, k)) + at - open.source.end)
        } else {
            moved_point(text, model, items, head, a, k - 1, at)
        }
    }
}

/// Several points of a replacement.
#[derive(Debug)]
pub struct PointsPlan {
    pub range: SourceSpan,
    pub text: String,
    pub points: Vec<usize>,
}

/// The text that replaces an outermost list when items `a` to `b` leave it.
pub open spec fn root_exit_text(text: Seq<char>, model: HtmlModel, list: int, a: int, b: int) -> Seq<
    char,
> {
    let nodes = model.nodes@;
    let items = list_items(model, list);
    let head = split_left(text, nodes[list], nodes[items[a] as int].source.start as int, a > 0);
    through_item(text, model, items, head, a, b) + split_right(
        text,
        nodes[list],
        nodes[items[b] as int].source.end as int,
        b + 1 < items.len(),
        a > 0,
        b + 1,
    )
}

/// Whether the items of `span_` can leave an outermost list with all `points`
/// inside them: their places in it.
pub open spec fn root_exit_places(model: HtmlModel, span_: ListSpan) -> Option<(int, int)> {
    let items = list_items(model, span_.list as int);
    match (place_of(items, span_.first), place_of(items, span_.last)) {
        (Some(a), Some(b)) if !under_item(
            model.nodes@,
            model.nodes@[span_.list as int].parent,
        ) => Some((a, b)),
        _ => None,
    }
}

/// Where `at` stands once items `a` to `b` have left the outermost list.
pub open spec fn root_exit_point(
    text: Seq<char>,
    model: HtmlModel,
    list: int,
    a: int,
    b: int,
    at: int,
) -> Option<int> {
    let nodes = model.nodes@;
    let items = list_items(model, list);
    let head = split_left(text, nodes[list], nodes[items[a] as int].source.start as int, a > 0);
    moved_point(text, model, items, head, a, b, at)
}

fn has_block_child(source: &str, model: &HtmlModel, item: usize) -> (r: bool)
    requires
        model.wf(source@),
        item < model.nodes@.len(),
    ensures
        r == block_children(
            model.nodes@,
            model.nodes@[item as int],
            model.nodes@[item as int].children@.len() as int,
        ),
{
    let children = &model.nodes[item].children;
    let ghost nodes = model.nodes@;
    let mut k: usize = 0;
    while k < children.len()
        invariant
            model.wf(source@),
            nodes == model.nodes@,
            item < nodes.len(),
            *children == nodes[item as int].children,
            k <= children@.len(),
            !block_children(nodes, nodes[item as int], k as int),
        decreases children@.len() - k,
    {
        let child = children[k];
        assert(nodes[item as int].children@[k as int] < nodes.len());
        if let Some((open, _)) = element_tags(&model.nodes[child]) {
            if is_block_name(open.name.as_str()) {
                assert(block_children(nodes, nodes[item as int], children@.len() as int)) by {
                    assert(nodes[nodes[item as int].children@[k as int] as int].tags() is Some);
                }
                return true;
            }
        }
        k += 1;
    }
    false
}

/// Where the opening tag of a closed element ends.
pub open spec fn open_end(node: HtmlNode) -> int {
    match node.tags() {
        Some((open, _)) => open.source.end as int,
        None => 0,
    }
}

/// Records where the points in one item's body go. `base` is the length of what
/// precedes the body in the replacement, `limit` that of what ends with it.
fn move_points(
    node: &HtmlNode,
    points: &Vec<usize>,
    mapped: &mut Vec<Option<usize>>,
    base: usize,
    limit: usize,
)
    requires
        node.tags() matches Some((open, close)) && limit - base == close.source.start
            - open.source.end,
        old(mapped)@.len() == points@.len(),
    ensures
        final(mapped)@.len() == points@.len(),
        forall|i: int|
            0 <= i < points@.len() ==> (#[trigger] final(mapped)@[i]) == (if content_holds(
                *node,
                points@[i] as int,
            ) {
                Some((base + points@[i] - open_end(*node)) as usize)
            } else {
                old(mapped)@[i]
            }),
{
    let mut i: usize = 0;
    if let Some((open, close)) = element_tags(node) {
        while i < points.len()
            invariant
                node.tags() == Some((*open, *close)),
                limit - base == close.source.start - open.source.end,
                i <= points@.len(),
                mapped@.len() == points@.len(),
                forall|k: int|
                    0 <= k < i ==> (#[trigger] mapped@[k]) == (if content_holds(
                        *node,
                        points@[k] as int,
                    ) {
                        Some((base + points@[k] - open.source.end) as usize)
                    } else {
                        old(mapped)@[k]
                    }),
                forall|k: int| i <= k < points@.len() ==> (#[trigger] mapped@[k]) == old(mapped)@[k],
            decreases points@.len() - i,
        {
            let point = points[i];
            if open.source.end <= point && point <= close.source.start {
                mapped.set(i, Some(base + (point - open.source.end)));
            }
            i += 1;
        }
    }
}

/// The points of a plan, if all are known.
fn all_points(mapped: &Vec<Option<usize>>) -> (r: Option<Vec<usize>>)
    ensures
        match r {
            Some(points) => points@.len() == mapped@.len() && forall|i: int|
                0 <= i < mapped@.len() ==> (#[trigger] mapped@[i]) == Some(points@[i]),
            None => exists|i: int| 0 <= i < mapped@.len() && (#[trigger] mapped@[i]) is None,
        },
{
    let mut points: Vec<usize> = Vec::new();
    let mut i: usize = 0;
    while i < mapped.len()
        invariant
            i <= mapped@.len(),
            points@.len() == i,
            forall|k: int| 0 <= k < i ==> (#[trigger] mapped@[k]) == Some(points@[k]),
        decreases mapped@.len() - i,
    {
        match mapped[i] {
            Some(point) => {
                points.push(point);
            },
            None => {
                assert(mapped@[i as int] is None);
                return None;
            },
        }
        i += 1;
    }
    Some(points)
}

/// Whether `plan` takes the items of `span_` out of an outermost list, and says
/// where each of `points` went.
pub open spec fn is_root_exit(
    text: Seq<char>,
    model: HtmlModel,
    span_: ListSpan,
    points: Seq<usize>,
    plan: Option<PointsPlan>,
) -> bool {
    let list = span_.list as int;
    match root_exit_places(model, span_) {
        None => plan is None,
        Some((a, b)) => match plan {
            Some(made) => {
                &&& made.range == model.nodes@[list].source
                &&& made.text@ == root_exit_text(text, model, list, a, b)
                &&& made.points@.len() == points.len()
                &&& forall|i: int|
                    0 <= i < points.len() ==> root_exit_point(
                        text,
                        model,
                        list,
                        a,
                        b,
                        (#[trigger] points[i]) as int,
                    ) == Some(made.points@[i] as int)
            },
            None => exists|i: int|
                0 <= i < points.len() && root_exit_point(
                    text,
                    model,
                    list,
                    a,
                    b,
                    (#[trigger] points[i]) as int,
                ) is None,
        },
    }
}

proof fn lemma_places_ordered(
    text: Seq<char>,
    model: HtmlModel,
    items: Seq<usize>,
    list: int,
    a: int,
    b: int,
)
    requires
        model.wf(text),
        0 <= a < items.len(),
        0 <= b < items.len(),
        forall|k: int| 0 <= k < items.len() ==> item_in(model.nodes@, list, #[trigger] items[k]),
        forall|j: int, k: int|
            #![trigger items[j], items[k]]
            0 <= j < k < items.len() ==> model.nodes@[items[j] as int].source.end
                <= model.nodes@[items[k] as int].source.start,
        model.nodes@[items[a] as int].source.start <= model.nodes@[items[b] as int].source.start,
    ensures
        a <= b,
{
    if b < a {
        assert(item_in(model.nodes@, list, items[b]));
        assert(model.nodes@[items[b] as int].wf(text));
        assert(model.nodes@[items[b] as int].source.end
            <= model.nodes@[items[a] as int].source.start);
    }
}

/// Plans to take the items of `span_` out of an outermost list: each becomes a
/// paragraph, or a `div` where it holds blocks, and keeps its attributes. Says
/// where each of `points` goes. `None` for a list inside an item, and where a
/// point lies in none of the items.
pub fn root_html_list_outdent_with_points(
    source: &str,
    model: &HtmlModel,
    span_: ListSpan,
    points: &Vec<usize>,
) -> (r: Option<PointsPlan>)
    requires
        model.wf(source@),
        exists|start: int, end: int| #[trigger] span_ok(*model, span_, start, end),
    ensures
        is_root_exit(source@, *model, span_, points@, r),
{
    let ghost text = source@;
    let ghost nodes = model.nodes@;
    if is_under_item(source, model, span_.list) {
        return None;
    }
    let items = collect_items(Ghost(text), model, span_.list);
    let a = find_place(&items, span_.first)?;
    let b = find_place(&items, span_.last)?;
    let list_node = &model.nodes[span_.list];
    proof {
        lemma_places_ordered(text, *model, items@, span_.list as int, a as int, b as int);
        assert(nodes[span_.list as int].wf(text));
        assert(item_in(nodes, span_.list as int, items@[a as int]));
        assert(item_in(nodes, span_.list as int, items@[b as int]));
        assert(nodes[items@[a as int] as int].wf(text));
        assert(nodes[items@[b as int] as int].wf(text));
    }
    let mut output = left_of_item(source, list_node, model.nodes[items[a]].source.start, a > 0);
    let ghost head = output@;
    let mut mapped: Vec<Option<usize>> = Vec::new();
    let mut n: usize = 0;
    while n < points.len()
        invariant
            n <= points@.len(),
            mapped@.len() == n,
            forall|i: int| 0 <= i < n ==> (#[trigger] mapped@[i]) is None,
        decreases points@.len() - n,
    {
        mapped.push(None);
        n += 1;
    }
    let mut k: usize = a;
    while k <= b
        invariant
            model.wf(text),
            text == source@,
            nodes == model.nodes@,
            a <= k <= b + 1,
            b < items@.len(),
            forall|m: int|
                0 <= m < items@.len() ==> item_in(nodes, span_.list as int, #[trigger] items@[m]),
            forall|i: int, j: int|
                #![trigger items@[i], items@[j]]
                0 <= i < j < items@.len() ==> nodes[items@[i] as int].source.end
                    <= nodes[items@[j] as int].source.start,
            output@ == (if k == a {
                head
            } else {
                through_item(text, *model, items@, head, a as int, k - 1)
            }),
            mapped@.len() == points@.len(),
            forall|i: int|
                0 <= i < points@.len() ==> match #[trigger] mapped@[i] {
                    Some(at) => moved_point(
                        text,
                        *model,
                        items@,
                        head,
                        a as int,
                        k - 1,
                        points@[i] as int,
                    ) == Some(at as int),
                    None => moved_point(
                        text,
                        *model,
                        items@,
                        head,
                        a as int,
                        k - 1,
                        points@[i] as int,
                    ) is None,
                },
        decreases b + 1 - k,
    {
        let count = items.len();
        let id = items[k];
        assert(item_in(nodes, span_.list as int, items@[k as int]));
        assert(nodes[id as int].wf(text));
        let item = &model.nodes[id];
        if k > a {
            let previous = items[k - 1];
            proof {
                assert(item_in(nodes, span_.list as int, items@[k - 1]));
                assert(nodes[previous as int].wf(text));
                assert(nodes[items@[k - 1] as int].source.end
                    <= nodes[items@[k as int] as int].source.start);
            }
            output.push_str(slice(source, model.nodes[previous].source.end, item.source.start));
        }
        let wrapper = if has_block_child(source, model, id) {
            "div"
        } else {
            "p"
        };
        if let Some((open, close)) = element_tags(item) {
            let opening = rename_open(source, open, wrapper);
            output.push_str(opening.as_str());
            assert(output@ =~= before_body(text, *model, items@, head, a as int, k as int));
            let ghost prefix = output@;
            let base = text_len(output.as_str());
            let content = slice(source, open.source.end, close.source.start);
            output.push_str(content);
            let limit = text_len(output.as_str());
            proof {
                lemma_encode_concat(prefix, content@);
                lemma_span_bytes(text, open.source.end as int, close.source.start as int);
            }
            let ghost before = mapped@;
            move_points(item, points, &mut mapped, base, limit);
            output.push_str("</");
            output.push_str(wrapper);
            output.push_str(">");
            proof {
                assert(output@ =~= through_item(text, *model, items@, head, a as int, k as int));
                assert forall|i: int| 0 <= i < points@.len() implies match #[trigger] mapped@[i] {
                    Some(at) => moved_point(
                        text,
                        *model,
                        items@,
                        head,
                        a as int,
                        k as int,
                        points@[i] as int,
                    ) == Some(at as int),
                    None => moved_point(
                        text,
                        *model,
                        items@,
                        head,
                        a as int,
                        k as int,
                        points@[i] as int,
                    ) is None,
                } by {
                    assert(before[i] is Some || before[i] is None);
                }
            }
        }
        k += 1;
    }
    let right = right_of_item(
        source,
        list_node,
        model.nodes[items[b]].source.end,
        b + 1 < items.len(),
        a > 0,
        b + 1,
    );
    output.push_str(right.as_str());
    let kept = match all_points(&mapped) {
        Some(kept) => kept,
        None => {
            proof {
                let i = choose|i: int| 0 <= i < mapped@.len() && (#[trigger] mapped@[i]) is None;
                assert(root_exit_point(
                    text,
                    *model,
                    span_.list as int,
                    a as int,
                    b as int,
                    points@[i] as int,
                ) is None);
            }
            return None;
        },
    };
    proof {
        assert forall|i: int| 0 <= i < points@.len() implies root_exit_point(
            text,
            *model,
            span_.list as int,
            a as int,
            b as int,
            (#[trigger] points@[i]) as int,
        ) == Some(kept@[i] as int) by {
            assert(mapped@[i] == Some(kept@[i]));
        }
    }
    Some(PointsPlan { range: list_node.source, text: output, points: kept })
}

/// Whether an item shows something: text, an image, a disclosure or a list.
pub open spec fn meaningful(text: Seq<char>, node: HtmlNode) -> bool {
    match node.kind {
        HtmlNodeKind::Text => !blank(source_of(text, node.source)),
        HtmlNodeKind::Comment => false,
        HtmlNodeKind::Element { opening, .. } => object_name(opening.name@),
    }
}

/// Whether something in the content of `item` shows.
pub open spec fn shows_something(text: Seq<char>, model: HtmlModel, item: HtmlNode) -> bool {
    exists|n: int|
        0 <= n < model.nodes@.len() && in_content(item, #[trigger] model.nodes@[n]) && meaningful(
            text,
            model.nodes@[n],
        )
}

/// Whether node `n` in the content of item `item` keeps it from being split at
/// `caret`: the caret stands inside a tag, or in an element that is not split.
pub open spec fn prevents_split(node: HtmlNode, caret: int) -> bool {
    match node.kind {
        HtmlNodeKind::Element { opening, closing } => splits_tag(opening, closing, caret) || (
        content_holds(node, caret) && (list_name(opening.name@) || opening.name@ == "details"@
            || opening.name@ == "summary"@)),
        _ => false,
    }
}

/// Whether node `n` is split together with item `item`: a closed element in the
/// item's content around the caret.
pub open spec fn wraps_caret(model: HtmlModel, item: int, n: int, caret: int) -> bool {
    n != item && in_content(model.nodes@[item], model.nodes@[n]) && content_holds(
        model.nodes@[n],
        caret,
    )
}

/// The elements among the first `count` nodes that are split with the item.
pub open spec fn split_wrappers(model: HtmlModel, item: int, caret: int, count: int) -> Seq<usize>
    decreases count,
{
    if count <= 0 {
        Seq::empty()
    } else {
        let before = split_wrappers(model, item, caret, count - 1);
        if wraps_caret(model, item, count - 1, caret) {
            before.push((count - 1) as usize)
        } else {
            before
        }
    }
}

/// The closing tags of `wrappers`, from the last one to the first.
pub open spec fn closed_wrappers(text: Seq<char>, nodes: Seq<HtmlNode>, wrappers: Seq<usize>) -> Seq<
    char,
>
    decreases wrappers.len(),
{
    if wrappers.len() == 0 {
        Seq::empty()
    } else {
        let (_, close) = nodes[wrappers.last() as int].tags()->0;
        source_of(text, close.source) + closed_wrappers(text, nodes, wrappers.drop_last())
    }
}

/// The opening tags of `wrappers` once more, from the first one to the last.
pub open spec fn reopened_wrappers(text: Seq<char>, nodes: Seq<HtmlNode>, wrappers: Seq<usize>)
    -> Seq<char>
    decreases wrappers.len(),
{
    if wrappers.len() == 0 {
        Seq::empty()
    } else {
        let (open, _) = nodes[wrappers.last() as int].tags()->0;
        reopened_wrappers(text, nodes, wrappers.drop_last()) + without_id(text, open)
    }
}

/// The markup that splits the innermost item at `caret` in two, if it can be
/// split there: it closes and reopens the item and the elements around the caret.
pub open spec fn split_markup(text: Seq<char>, model: HtmlModel, caret: int) -> Option<Seq<char>> {
    let nodes = model.nodes@;
    match item_at(model, caret) {
        None => None,
        Some(item) => {
            let node = nodes[item as int];
            let (open, close) = node.tags()->0;
            let wrappers = split_wrappers(model, item as int, caret, nodes.len() as int);
            let prevented = exists|n: int|
                0 <= n < nodes.len() && n != item && in_content(node, #[trigger] nodes[n])
                    && prevents_split(nodes[n], caret);
            if !shows_something(text, model, node) || prevented {
                None
            } else {
                Some(
                    closed_wrappers(text, nodes, wrappers) + source_of(text, close.source)
                        + without_id(text, open) + reopened_wrappers(text, nodes, wrappers),
                )
            }
        },
    }
}

fn item_shows(source: &str, model: &HtmlModel, item: usize) -> (r: bool)
    requires
        model.wf(source@),
        item < model.nodes@.len(),
        model.nodes@[item as int].tags() is Some,
    ensures
        r == shows_something(source@, *model, model.nodes@[item as int]),
{
    let ghost whole = model.nodes@[item as int];
    if let Some((open, close)) = element_tags(&model.nodes[item]) {
        let mut n: usize = 0;
        while n < model.nodes.len()
            invariant
                model.wf(source@),
                whole == model.nodes@[item as int],
                whole.tags() == Some((*open, *close)),
                n <= model.nodes@.len(),
                forall|k: int|
                    0 <= k < n ==> !(in_content(whole, #[trigger] model.nodes@[k]) && meaningful(
                        source@,
                        model.nodes@[k],
                    )),
            decreases model.nodes@.len() - n,
        {
            let node = &model.nodes[n];
            assert(model.nodes@[n as int].wf(source@));
            if is_in_content(open, close, node) {
                let shows = match &node.kind {
                    HtmlNodeKind::Text => !is_blank(
                        slice(source, node.source.start, node.source.end),
                    ),
                    HtmlNodeKind::Comment => false,
                    HtmlNodeKind::Element { opening, .. } => is_object_name(
                        opening.name.as_str(),
                    ),
                };
                if shows {
                    assert(in_content(whole, model.nodes@[n as int]));
                    return true;
                }
            }
            n += 1;
        }
    }
    false
}

/// The elements that are split with `item` at `caret`, or `None` where something
/// keeps the item from being split.
fn collect_wrappers(source: &str, model: &HtmlModel, item: usize, caret: usize) -> (r: Option<
    Vec<usize>,
>)
    requires
        model.wf(source@),
        item < model.nodes@.len(),
        model.nodes@[item as int].tags() is Some,
    ensures
        ({
            let nodes = model.nodes@;
            let prevented = exists|n: int|
                0 <= n < nodes.len() && n != item && in_content(
                    nodes[item as int],
                    #[trigger] nodes[n],
                ) && prevents_split(nodes[n], caret as int);
            match r {
                Some(wrappers) => !prevented && wrappers@ == split_wrappers(
                    *model,
                    item as int,
                    caret as int,
                    nodes.len() as int,
                ) && forall|k: int|
                    0 <= k < wrappers@.len() ==> {
                        let id = #[trigger] wrappers@[k];
                        id < nodes.len() && nodes[id as int].tags() is Some
                    },
                None => prevented,
            }
        }),
{
    let mut wrappers: Vec<usize> = Vec::new();
    let ghost nodes = model.nodes@;
    let ghost whole = nodes[item as int];
    if let Some((open, close)) = element_tags(&model.nodes[item]) {
        let mut n: usize = 0;
        while n < model.nodes.len()
            invariant
                model.wf(source@),
                nodes == model.nodes@,
                item < nodes.len(),
                whole == nodes[item as int],
                whole.tags() == Some((*open, *close)),
                n <= nodes.len(),
                wrappers@ == split_wrappers(*model, item as int, caret as int, n as int),
                forall|k: int|
                    0 <= k < wrappers@.len() ==> {
                        let id = #[trigger] wrappers@[k];
                        id < nodes.len() && nodes[id as int].tags() is Some
                    },
                forall|k: int|
                    0 <= k < n && k != item ==> !(in_content(whole, #[trigger] nodes[k])
                        && prevents_split(nodes[k], caret as int)),
            decreases nodes.len() - n,
        {
            let node = &model.nodes[n];
            if n != item && is_in_content(open, close, node) {
                assert(in_content(whole, nodes[n as int]));
                if let HtmlNodeKind::Element { opening, closing } = &node.kind {
                    let name = opening.name.as_str();
                    let around = holds_caret(node, caret);
                    if cuts_tag(opening, closing, caret) || (around && (is_list_name(name)
                        || same_text(name, "details") || same_text(name, "summary"))) {
                        assert(prevents_split(nodes[n as int], caret as int));
                        return None;
                    }
                    if around {
                        wrappers.push(n);
                    }
                }
            }
            n += 1;
        }
    }
    Some(wrappers)
}

/// The markup that splits the innermost item at `caret` in two. `None` where the
/// item is empty, or the caret stands in markup or in an element that is not
/// split.
pub fn html_list_split_markup(source: &str, model: &HtmlModel, caret: usize) -> (r: Option<String>)
    requires
        model.wf(source@),
    ensures
        match r {
            Some(markup) => split_markup(source@, *model, caret as int) == Some(markup@),
            None => split_markup(source@, *model, caret as int) is None,
        },
{
    let ghost text = source@;
    let ghost nodes = model.nodes@;
    let item = find_item(Ghost(text), model, caret)?;
    assert(nodes[item as int].wf(text));
    if !item_shows(source, model, item) {
        return None;
    }
    let wrappers = collect_wrappers(source, model, item, caret)?;
    let mut markup = String::new();
    let mut i: usize = wrappers.len();
    proof {
        assert(wrappers@.take(i as int) =~= wrappers@);
        assert(markup@ + closed_wrappers(text, nodes, wrappers@) =~= closed_wrappers(
            text,
            nodes,
            wrappers@,
        ));
    }
    while i > 0
        invariant
            model.wf(text),
            text == source@,
            nodes == model.nodes@,
            forall|k: int|
                0 <= k < wrappers@.len() ==> {
                    let id = #[trigger] wrappers@[k];
                    id < nodes.len() && nodes[id as int].tags() is Some
                },
            i <= wrappers@.len(),
            markup@ + closed_wrappers(text, nodes, wrappers@.take(i as int)) == closed_wrappers(
                text,
                nodes,
                wrappers@,
            ),
        decreases i,
    {
        let id = wrappers[i - 1];
        let ghost before = markup@;
        assert(wrappers@.take(i as int).last() == id);
        assert(wrappers@.take(i as int).drop_last() =~= wrappers@.take(i - 1));
        assert(nodes[id as int].wf(text));
        if let Some((_, close)) = element_tags(&model.nodes[id]) {
            markup.push_str(slice(source, close.source.start, close.source.end));
        }
        assert(markup@ + closed_wrappers(text, nodes, wrappers@.take(i - 1)) =~= before
            + closed_wrappers(text, nodes, wrappers@.take(i as int)));
        i -= 1;
    }
    assert(wrappers@.take(0) =~= Seq::empty());
    assert(markup@ + Seq::<char>::empty() =~= markup@);
    if let Some((open, close)) = element_tags(&model.nodes[item]) {
        markup.push_str(slice(source, close.source.start, close.source.end));
        let reopened = opening_without_id(source, open);
        markup.push_str(reopened.as_str());
    }
    let ghost head = markup@;
    let mut j: usize = 0;
    assert(head + Seq::<char>::empty() =~= head);
    while j < wrappers.len()
        invariant
            model.wf(text),
            text == source@,
            nodes == model.nodes@,
            forall|k: int|
                0 <= k < wrappers@.len() ==> {
                    let id = #[trigger] wrappers@[k];
                    id < nodes.len() && nodes[id as int].tags() is Some
                },
            j <= wrappers@.len(),
            markup@ == head + reopened_wrappers(text, nodes, wrappers@.take(j as int)),
        decreases wrappers@.len() - j,
    {
        let id = wrappers[j];
        assert(wrappers@.take(j + 1).last() == id);
        assert(wrappers@.take(j + 1).drop_last() =~= wrappers@.take(j as int));
        assert(nodes[id as int].wf(text));
        if let Some((open, _)) = element_tags(&model.nodes[id]) {
            let reopened = opening_without_id(source, open);
            markup.push_str(reopened.as_str());
        }
        assert(markup@ =~= head + reopened_wrappers(text, nodes, wrappers@.take(j + 1)));
        j += 1;
    }
    assert(wrappers@.take(j as int) =~= wrappers@);
    Some(markup)
}

/// Whether something in an item's content stands between its start and `caret`.
pub open spec fn precedes_caret(text: Seq<char>, node: HtmlNode, caret: int) -> bool {
    node.source.start < caret && match node.kind {
        HtmlNodeKind::Text => !blank(
            span(
                text,
                node.source.start as int,
                if node.source.end < caret {
                    node.source.end as int
                } else {
                    caret
                },
            ),
        ),
        HtmlNodeKind::Comment => caret < node.source.end,
        HtmlNodeKind::Element { opening, closing } => {
            ||| caret < opening.source.end
            ||| object_name(opening.name@)
            ||| opening.name@ == "br"@
            ||| closing matches Some(tag) && (splits(tag.source, caret) || (tag.source.end <= caret
                && (paragraph_name(opening.name@) || opening.name@ == "div"@)))
        },
    }
}

/// Whether `caret` is the first place in its item where text can be typed.
pub open spec fn at_content_start(text: Seq<char>, model: HtmlModel, caret: int) -> bool {
    item_at(model, caret) matches Some(item) && forall|n: int|
        0 <= n < model.nodes@.len() && in_content(
            model.nodes@[item as int],
            #[trigger] model.nodes@[n],
        ) ==> !precedes_caret(text, model.nodes@[n], caret)
}

/// Whether `caret` is the first place in its item where text can be typed, so
/// that deleting backward from there leaves the list level.
pub fn at_html_list_content_start(source: &str, model: &HtmlModel, caret: usize) -> (r: bool)
    requires
        model.wf(source@),
        boundary(source@, caret as int),
    ensures
        r == at_content_start(source@, *model, caret as int),
{
    let ghost text = source@;
    let item = match find_item(Ghost(text), model, caret) {
        Some(item) => item,
        None => {
            return false;
        },
    };
    let ghost whole = model.nodes@[item as int];
    if let Some((open, close)) = element_tags(&model.nodes[item]) {
        let mut n: usize = 0;
        while n < model.nodes.len()
            invariant
                model.wf(source@),
                boundary(source@, caret as int),
                text == source@,
                item_at(*model, caret as int) == Some(item),
                whole == model.nodes@[item as int],
                whole.tags() == Some((*open, *close)),
                n <= model.nodes@.len(),
                forall|k: int|
                    0 <= k < n && in_content(whole, #[trigger] model.nodes@[k]) ==> !precedes_caret(
                        text,
                        model.nodes@[k],
                        caret as int,
                    ),
            decreases model.nodes@.len() - n,
        {
            let node = &model.nodes[n];
            assert(model.nodes@[n as int].wf(source@));
            if is_in_content(open, close, node) && node.source.start < caret {
                assert(in_content(whole, model.nodes@[n as int]));
                let precedes = match &node.kind {
                    HtmlNodeKind::Text => {
                        let end: usize = if node.source.end < caret {
                            node.source.end
                        } else {
                            caret
                        };
                        !is_blank(slice(source, node.source.start, end))
                    },
                    HtmlNodeKind::Comment => caret < node.source.end,
                    HtmlNodeKind::Element { opening, closing } => {
                        let name = opening.name.as_str();
                        let behind = match closing {
                            Some(tag) => (tag.source.start < caret && caret < tag.source.end) || (
                            tag.source.end <= caret && (is_paragraph_name(name) || same_text(
                                name,
                                "div",
                            ))),
                            None => false,
                        };
                        caret < opening.source.end || is_object_name(name) || same_text(name, "br")
                            || behind
                    },
                };
                if precedes {
                    assert(precedes_caret(text, model.nodes@[n as int], caret as int));
                    return false;
                }
            }
            n += 1;
        }
    }
    true
}

/// What a [`PointsPlan`] says.
pub struct PointsPlanView {
    pub range: SourceSpan,
    pub text: Seq<char>,
    pub points: Seq<int>,
}

/// The plan that takes the items of `span_` out of an outermost list, with the
/// places of `points` in it.
pub open spec fn root_exit(
    text: Seq<char>,
    model: HtmlModel,
    span_: ListSpan,
    points: Seq<usize>,
) -> Option<PointsPlanView> {
    let list = span_.list as int;
    match root_exit_places(model, span_) {
        Some((a, b)) if forall|i: int|
            0 <= i < points.len() ==> root_exit_point(
                text,
                model,
                list,
                a,
                b,
                (#[trigger] points[i]) as int,
            ) is Some => Some(
            PointsPlanView {
                range: model.nodes@[list].source,
                text: root_exit_text(text, model, list, a, b),
                points: Seq::new(
                    points.len(),
                    |i: int| root_exit_point(text, model, list, a, b, points[i] as int)->0,
                ),
            },
        ),
        _ => None,
    }
}

/// The relation between a root exit and its plan is that of [`root_exit`].
pub proof fn lemma_root_exit(
    text: Seq<char>,
    model: HtmlModel,
    span_: ListSpan,
    points: Seq<usize>,
    plan: Option<PointsPlan>,
)
    requires
        is_root_exit(text, model, span_, points, plan),
    ensures
        match plan {
            Some(made) => {
                &&& root_exit(text, model, span_, points) matches Some(view)
                &&& view.range == made.range
                &&& view.text == made.text@
                &&& view.points.len() == made.points@.len()
                &&& forall|i: int|
                    0 <= i < view.points.len() ==> (#[trigger] view.points[i]) == made.points@[i]
            },
            None => root_exit(text, model, span_, points) is None,
        },
{
    if let Some(made) = plan {
        let (a, b) = root_exit_places(model, span_)->0;
        assert forall|i: int| 0 <= i < points.len() implies root_exit_point(
            text,
            model,
            span_.list as int,
            a,
            b,
            (#[trigger] points[i]) as int,
        ) is Some by {}
    }
}

} // verus!
