//! What the commands on lists written in HTML do to the tree of elements.
use crate::document::html_list::{
    blank, block_name, chain_item, closings_of, content_holds, continued_number, continued_open,
    exit_prevented, has_attribute, holds_block, holds_paragraph, in_content, in_markup, in_table,
    innermost_item, is_item,
    item_at, item_body, item_in, items_of, lemma_items_of, list_chain, list_items, list_parent, named, nested_plan,
    outdent_at, place_of, prevents_exit, reopenings_of, root_plan, selection_span, shared_list, span_ok, split_left, split_right, tag_edits,
    through_divs, without_id, ListPlanView, ListSpan,
};
use crate::document::html_list_groups::{
    joined_exits, last_place, lemma_last_place, opened_list, ParsedGap,
};
use crate::document::html_list_plans::{
    before_body, block_children, closed_wrappers, closing_list, indent_plan, is_root_exit,
    item_exit_close, item_exit_open, meaningful, moved_point, prevents_split, previous_item,
    reopened_wrappers, root_exit_places, root_exit_point, selected_outdent, shows_something,
    split_markup, split_wrappers, through_item, under_item, wraps_caret, PointsPlan,
};
use crate::document::table_paste::{lemma_woven_push, woven};
use crate::grid::SourceSpan;
use crate::edit::{rewritten, EditView};
use crate::html::{
    paragraph_name, tag_wf, HtmlAttribute, HtmlModel, HtmlNode, HtmlNodeKind, HtmlTag,
};
use crate::text::{byte_len, decimal, lemma_encode_concat, span};
use vstd::prelude::*;

verus! {

/// Whether a node is an element of the given name with an opening and a closing tag.
pub open spec fn element_named(node: HtmlNode, name: Seq<char>) -> bool {
    node.kind matches HtmlNodeKind::Element { opening, closing: Some(_) } && opening.name@ == name
}

/// The opening tag of an element.
pub open spec fn opening_tag(node: HtmlNode) -> HtmlTag {
    node.kind->Element_opening
}

/// The closing tag of an element that has one.
pub open spec fn closing_tag(node: HtmlNode) -> HtmlTag {
    node.kind->Element_closing->Some_0
}

/// The text of a stretch of the source.
pub open spec fn text_of(text: Seq<char>, source: SourceSpan) -> Seq<char> {
    span(text, source.start as int, source.end as int)
}

/// Whether node `id` is an item among the children of list `list`.
pub open spec fn child_item(nodes: Seq<HtmlNode>, list: int, id: usize) -> bool {
    nodes[list].children@.contains(id) && element_named(nodes[id as int], "li"@)
}

/// Whether `previous` is the item of the list right before item `first`.
pub open spec fn is_previous(nodes: Seq<HtmlNode>, list: int, previous: usize, first: usize)
    -> bool {
    &&& child_item(nodes, list, previous)
    &&& nodes[previous as int].source.end <= nodes[first as int].source.start
    &&& forall|other: usize| #[trigger]
        child_item(nodes, list, other) ==> other == previous || nodes[other as int].source.end
            <= nodes[previous as int].source.start || nodes[first as int].source.start
            <= nodes[other as int].source.start
}

/// Whether `inner` is a list named `name` that closes the content of an item: a child with
/// nothing but white space behind it.
pub open spec fn closes_item(
    text: Seq<char>,
    nodes: Seq<HtmlNode>,
    item: HtmlNode,
    inner: usize,
    name: Seq<char>,
) -> bool {
    &&& item.children@.contains(inner)
    &&& element_named(nodes[inner as int], name)
    &&& blank(
        span(
            text,
            nodes[inner as int].source.end as int,
            closing_tag(item).source.start as int,
        ),
    )
}

/// Whether `plan` moves the source from `start` to `end`, with what stands between it and the
/// item before, to the end of list `inner`, which closes that item: the moved items are
/// written before the list's closing tag, and that before the item's.
pub open spec fn joins_list(
    text: Seq<char>,
    item: HtmlNode,
    inner: HtmlNode,
    start: int,
    end: int,
    caret: int,
    plan: ListPlanView,
) -> bool {
    let between = span(text, item.source.end as int, start);
    &&& plan.range.start == closing_tag(inner).source.start
    &&& plan.range.end == end
    &&& plan.text == between + span(text, start, end) + span(
        text,
        closing_tag(inner).source.start as int,
        closing_tag(item).source.end as int,
    )
    &&& plan.caret == byte_len(between) + (caret - start)
}

/// Whether `plan` moves the source from `start` to `end`, with what stands between it and the
/// item before, into a new list named `name` at the end of that item: the list is opened right
/// before them, and closed behind them, before the item's closing tag.
pub open spec fn gets_list(
    text: Seq<char>,
    item: HtmlNode,
    name: Seq<char>,
    start: int,
    end: int,
    caret: int,
    plan: ListPlanView,
) -> bool {
    let opened = seq!['<'] + name + seq!['>'] + span(text, item.source.end as int, start);
    &&& plan.range.start == closing_tag(item).source.start
    &&& plan.range.end == end
    &&& plan.text == opened + span(text, start, end) + (seq!['<', '/'] + name + seq!['>'])
        + text_of(text, closing_tag(item).source)
    &&& plan.caret == byte_len(opened) + (caret - start)
}

proof fn lemma_place(items: Seq<usize>, wanted: usize)
    ensures
        match place_of(items, wanted) {
            Some(at) => 0 <= at < items.len() && items[at] == wanted,
            None => !items.contains(wanted),
        },
    decreases items.len(),
{
    if items.len() > 0 {
        let front = items.drop_last();
        lemma_place(front, wanted);
        if place_of(items, wanted) is None && items.contains(wanted) {
            let k = choose|k: int| 0 <= k < items.len() && items[k] == wanted;
            assert(front[k] == wanted);
        }
    }
}

/// The items of a list are the items among its children.
proof fn lemma_items_complete(nodes: Seq<HtmlNode>, children: Seq<usize>, count: int)
    requires
        0 <= count <= children.len(),
    ensures
        forall|k: int|
            0 <= k < count && is_item(nodes[children[k] as int]) ==> items_of(
                nodes,
                children,
                count,
            ).contains(#[trigger] children[k]),
        forall|j: int|
            0 <= j < items_of(nodes, children, count).len() ==> children.contains(
                #[trigger] items_of(nodes, children, count)[j],
            ),
    decreases count,
{
    if count > 0 {
        lemma_items_complete(nodes, children, count - 1);
        let before = items_of(nodes, children, count - 1);
        let items = items_of(nodes, children, count);
        assert forall|k: int| 0 <= k < count && is_item(nodes[children[k] as int]) implies
            items.contains(#[trigger] children[k]) by {
            if k < count - 1 {
                assert(before.contains(children[k]));
                let j = choose|j: int| 0 <= j < before.len() && before[j] == children[k];
                assert(items[j] == children[k]);
            } else {
                assert(items.last() == children[k]);
            }
        }
        assert forall|j: int| 0 <= j < items.len() implies children.contains(
            #[trigger] items[j],
        ) by {
            if j < before.len() {
                assert(items[j] == before[j]);
            } else {
                assert(children[count - 1] == items[j]);
            }
        }
    }
}

/// An item of a list has a place among its items.
proof fn lemma_child_item(model: HtmlModel, list: int, id: usize)
    ensures
        child_item(model.nodes@, list, id) <==> list_items(model, list).contains(id) && is_item(
            model.nodes@[id as int],
        ),
{
    let nodes = model.nodes@;
    let children = nodes[list].children@;
    lemma_items_complete(nodes, children, children.len() as int);
    let items = list_items(model, list);
    if child_item(nodes, list, id) {
        let k = choose|k: int| 0 <= k < children.len() && children[k] == id;
        assert(is_item(nodes[children[k] as int]));
        assert(items.contains(children[k]));
    }
    if items.contains(id) {
        let j = choose|j: int| 0 <= j < items.len() && items[j] == id;
        assert(children.contains(items[j]));
    }
}

/// The items of a list stand in order, each with a source of its own.
proof fn lemma_items_ordered(text: Seq<char>, model: HtmlModel, list: int)
    requires
        model.wf(text),
        0 <= list < model.nodes@.len(),
    ensures
        ({
            let nodes = model.nodes@;
            let items = list_items(model, list);
            &&& forall|k: int|
                0 <= k < items.len() ==> child_item(nodes, list, #[trigger] items[k])
                    && items[k] < nodes.len() && nodes[items[k] as int].source.start
                    < nodes[items[k] as int].source.end
            &&& forall|j: int, k: int|
                #![trigger items[j], items[k]]
                0 <= j < k < items.len() ==> nodes[items[j] as int].source.end
                    <= nodes[items[k] as int].source.start
        }),
{
    let nodes = model.nodes@;
    let children = nodes[list].children@;
    let items = list_items(model, list);
    lemma_items_of(text, model, list, children.len() as int);
    assert forall|k: int| 0 <= k < items.len() implies child_item(nodes, list, #[trigger] items[k])
        && items[k] < nodes.len() && nodes[items[k] as int].source.start
        < nodes[items[k] as int].source.end by {
        assert(item_in(nodes, list, items[k]));
        assert(items.contains(items[k]));
        lemma_child_item(model, list, items[k]);
        assert(nodes[items[k] as int].wf(text));
    }
}

/// A list that closes an item is found where there is one.
proof fn lemma_closing_list(
    text: Seq<char>,
    nodes: Seq<HtmlNode>,
    item: HtmlNode,
    name: Seq<char>,
    count: int,
)
    requires
        0 <= count <= item.children@.len(),
        item.tags() is Some,
    ensures
        match closing_list(text, nodes, item, name, count) {
            Some(at) => exists|inner: usize| #[trigger]
                closes_item(text, nodes, item, inner, name) && closing_tag(
                    nodes[inner as int],
                ).source.start == at,
            None => forall|k: int|
                0 <= k < count ==> !closes_item(
                    text,
                    nodes,
                    item,
                    #[trigger] item.children@[k],
                    name,
                ),
        },
    decreases count,
{
    if count > 0 {
        lemma_closing_list(text, nodes, item, name, count - 1);
        let child = item.children@[count - 1];
        let node = nodes[child as int];
        if closes_item(text, nodes, item, child, name) {
            assert(node.tags() is Some);
            assert(closing_list(text, nodes, item, name, count) == Some(
                closing_tag(node).source.start as int,
            ));
        } else {
            assert(item.children@.contains(child));
            assert(closing_list(text, nodes, item, name, count) == closing_list(
                text,
                nodes,
                item,
                name,
                count - 1,
            ));
        }
    }
}

/// Indented items become the last items of a list of the same kind that closes the item
/// before them: of the list that closes that item already, if there is one, else of a new
/// one. Only the item right before them takes them, and without one nothing is indented. The
/// caret stays at its character.
pub proof fn law_indented_items_are_in_a_list_of_their_kind(
    text: Seq<char>,
    model: HtmlModel,
    span_: ListSpan,
    caret: int,
)
    requires
        model.wf(text),
        exists|start: int, end: int| #[trigger] span_ok(model, span_, start, end),
    ensures
        ({
            let nodes = model.nodes@;
            let list = span_.list as int;
            let name = opening_tag(nodes[list]).name@;
            let start = nodes[span_.first as int].source.start as int;
            let end = nodes[span_.last as int].source.end as int;
            match indent_plan(text, model, span_, caret) {
                Some(plan) => exists|previous: usize| #[trigger]
                    is_previous(nodes, list, previous, span_.first) && {
                        let item = nodes[previous as int];
                        ||| exists|inner: usize| #[trigger]
                            closes_item(text, nodes, item, inner, name) && joins_list(
                                text,
                                item,
                                nodes[inner as int],
                                start,
                                end,
                                caret,
                                plan,
                            )
                        ||| (forall|inner: usize|
                            !#[trigger] closes_item(text, nodes, item, inner, name)) && gets_list(
                            text,
                            item,
                            name,
                            start,
                            end,
                            caret,
                            plan,
                        )
                    },
                None => forall|other: usize| #[trigger]
                    child_item(nodes, list, other) && child_item(nodes, list, span_.first)
                        ==> start <= nodes[other as int].source.start,
            }
        }),
{
    let nodes = model.nodes@;
    let list = span_.list as int;
    let (s, e) = choose|start: int, end: int| #[trigger] span_ok(model, span_, start, end);
    assert(span_ok(model, span_, s, e));
    let name = opening_tag(nodes[list]).name@;
    let first = nodes[span_.first as int];
    let last = nodes[span_.last as int];
    let items = list_items(model, list);
    lemma_place(items, span_.first);
    lemma_items_ordered(text, model, list);
    assert(item_in(nodes, list, span_.first));
    assert forall|other: usize| #[trigger] child_item(nodes, list, other) implies items.contains(
        other,
    ) by {
        lemma_child_item(model, list, other);
    }
    match place_of(items, span_.first) {
        None => {},
        Some(at) => {
            if at == 0 {
                assert forall|other: usize| #[trigger]
                    child_item(nodes, list, other) implies first.source.start
                    <= nodes[other as int].source.start by {
                    let k = choose|k: int| 0 <= k < items.len() && items[k] == other;
                    if k > 0 {
                        assert(nodes[items[0] as int].source.end
                            <= nodes[items[k] as int].source.start);
                    }
                }
            } else {
                let previous = items[at - 1];
                let item = nodes[previous as int];
                assert(child_item(nodes, list, items[at - 1]));
                assert(nodes[items[at - 1] as int].source.end
                    <= nodes[items[at] as int].source.start);
                assert forall|other: usize| #[trigger] child_item(nodes, list, other) implies other
                    == previous || nodes[other as int].source.end <= item.source.start
                    || first.source.start <= nodes[other as int].source.start by {
                    let k = choose|k: int| 0 <= k < items.len() && items[k] == other;
                    if k < at - 1 {
                        assert(nodes[items[k] as int].source.end
                            <= nodes[items[at - 1] as int].source.start);
                    } else if k > at {
                        assert(nodes[items[at] as int].source.end
                            <= nodes[items[k] as int].source.start);
                    }
                }
                assert(is_previous(nodes, list, previous, span_.first));
                let count = item.children@.len() as int;
                lemma_closing_list(text, nodes, item, name, count);
                let plan = indent_plan(text, model, span_, caret)->Some_0;
                let start = first.source.start as int;
                let end = last.source.end as int;
                assert(previous_item(items, place_of(items, span_.first)) == Some(previous));
                let between = span(text, item.source.end as int, start);
                let moved = span(text, start, end);
                assert(nodes[previous as int].wf(text));
                assert(closing_tag(item).source.end == item.source.end);
                match closing_list(text, nodes, item, name, count) {
                    Some(place) => {
                        let inner = choose|inner: usize| #[trigger]
                            closes_item(text, nodes, item, inner, name) && closing_tag(
                                nodes[inner as int],
                            ).source.start == place;
                        assert(Seq::<char>::empty() + between =~= between);
                        let tail = span(text, place, item.source.end as int);
                        assert(plan.text =~= between + moved + tail);
                        assert(joins_list(
                            text,
                            item,
                            nodes[inner as int],
                            start,
                            end,
                            caret,
                            plan,
                        ));
                    },
                    None => {
                        assert forall|inner: usize|
                            !#[trigger] closes_item(text, nodes, item, inner, name) by {
                            if closes_item(text, nodes, item, inner, name) {
                                let k = choose|k: int|
                                    0 <= k < item.children@.len() && item.children@[k] == inner;
                                assert(!closes_item(text, nodes, item, item.children@[k], name));
                            }
                        }
                        reveal_strlit("<");
                        reveal_strlit("</");
                        reveal_strlit(">");
                        assert("<"@ =~= seq!['<']);
                        assert("</"@ =~= seq!['<', '/']);
                        assert(">"@ =~= seq!['>']);
                        let opened = seq!['<'] + name + seq!['>'] + between;
                        assert(plan.text =~= opened + moved + (seq!['<', '/'] + name + seq!['>'])
                            + text_of(text, closing_tag(item).source));
                        assert(gets_list(text, item, name, start, end, caret, plan));
                    },
                }
            }
        },
    }
}

/// Whether `at` stands in the content of an item.
pub open spec fn stands_in_item(node: HtmlNode, at: int) -> bool {
    element_named(node, "li"@) && opening_tag(node).source.end <= at
        <= closing_tag(node).source.start
}

/// The item at a place is the shortest one whose content the place stands in.
pub proof fn law_item_at_a_place_is_the_innermost(model: HtmlModel, at: int)
    ensures
        match item_at(model, at) {
            Some(item) => item < model.nodes@.len() && stands_in_item(
                model.nodes@[item as int],
                at,
            ) && forall|n: int|
                0 <= n < model.nodes@.len() && stands_in_item(#[trigger] model.nodes@[n], at)
                    ==> model.nodes@[item as int].source.end - model.nodes@[item as int].source.start
                    <= model.nodes@[n].source.end - model.nodes@[n].source.start,
            None => forall|n: int|
                0 <= n < model.nodes@.len() ==> !stands_in_item(#[trigger] model.nodes@[n], at),
        },
{
    assert(model.nodes@.len() == model.nodes.len());
    lemma_innermost(model.nodes@, at, model.nodes@.len() as int);
}

proof fn lemma_innermost(nodes: Seq<HtmlNode>, at: int, count: int)
    requires
        0 <= count <= nodes.len() <= usize::MAX,
    ensures
        match innermost_item(nodes, at, count) {
            Some(item) => item < count && stands_in_item(nodes[item as int], at) && forall|n: int|
                0 <= n < count && stands_in_item(#[trigger] nodes[n], at)
                    ==> nodes[item as int].source.end - nodes[item as int].source.start
                    <= nodes[n].source.end - nodes[n].source.start,
            None => forall|n: int|
                0 <= n < count ==> !stands_in_item(#[trigger] nodes[n], at),
        },
    decreases count,
{
    if count > 0 {
        lemma_innermost(nodes, at, count - 1);
        assert(stands_in_item(nodes[count - 1], at) == (is_item(nodes[count - 1])
            && content_holds(nodes[count - 1], at)));
    }
}

/// The items of a list are those of its children that are items, in their order.
pub proof fn law_items_are_the_children(text: Seq<char>, model: HtmlModel, list: int)
    requires
        model.wf(text),
        0 <= list < model.nodes@.len(),
    ensures
        forall|id: usize| #[trigger]
            child_item(model.nodes@, list, id) <==> list_items(model, list).contains(id),
        forall|j: int, k: int|
            #![trigger list_items(model, list)[j], list_items(model, list)[k]]
            0 <= j < k < list_items(model, list).len()
                ==> model.nodes@[list_items(model, list)[j] as int].source.end
                <= model.nodes@[list_items(model, list)[k] as int].source.start,
{
    lemma_items_ordered(text, model, list);
    let items = list_items(model, list);
    assert forall|id: usize| #[trigger] child_item(model.nodes@, list, id) <==> items.contains(
        id,
    ) by {
        lemma_child_item(model, list, id);
        if items.contains(id) {
            let k = choose|k: int| 0 <= k < items.len() && items[k] == id;
            assert(child_item(model.nodes@, list, items[k]));
        }
    }
}

/// Whether `wrappers` are the elements between a node and the item `parent` around it, from
/// the inside out: each is a `div`, the parent of the one before.
pub open spec fn leads_to_item(
    nodes: Seq<HtmlNode>,
    from: Option<usize>,
    parent: usize,
    wrappers: Seq<usize>,
) -> bool
    decreases wrappers.len(),
{
    if wrappers.len() == 0 {
        from == Some(parent) && element_named(nodes[parent as int], "li"@)
    } else {
        from == Some(wrappers[0]) && element_named(nodes[wrappers[0] as int], "div"@)
            && leads_to_item(nodes, nodes[wrappers[0] as int].parent, parent, wrappers.drop_first())
    }
}

/// The item around a list is found through `div` elements alone, and always found there.
pub proof fn law_item_around_a_list(
    text: Seq<char>,
    model: HtmlModel,
    list: int,
    parent: usize,
    wrappers: Seq<usize>,
)
    requires
        model.wf(text),
        0 <= list < model.nodes@.len(),
    ensures
        list_parent(model, list) == Some((parent, wrappers)) <==> leads_to_item(
            model.nodes@,
            model.nodes@[list].parent,
            parent,
            wrappers,
        ),
{
    assert(model.nodes@[list].parent matches Some(p) ==> p < list);
    lemma_leads(text, model, model.nodes@[list].parent, parent, wrappers);
}

proof fn lemma_leads(
    text: Seq<char>,
    model: HtmlModel,
    from: Option<usize>,
    parent: usize,
    wrappers: Seq<usize>,
)
    requires
        model.wf(text),
        from matches Some(id) ==> id < model.nodes@.len(),
    ensures
        through_divs(model.nodes@, from) == Some((parent, wrappers)) <==> leads_to_item(
            model.nodes@,
            from,
            parent,
            wrappers,
        ),
    decreases
            match from {
                Some(id) => id + 1,
                None => 0,
            },
{
    let nodes = model.nodes@;
    reveal_strlit("li");
    reveal_strlit("div");
    assert("li"@.len() != "div"@.len());
    if let Some(id) = from {
        let up = nodes[id as int].parent;
        assert(up matches Some(p) ==> p < id);
        if named(nodes[id as int], "li"@) {
            if wrappers.len() > 0 {
                assert(!leads_to_item(nodes, from, parent, wrappers));
            } else {
                assert(wrappers =~= Seq::<usize>::empty());
            }
        } else if named(nodes[id as int], "div"@) && up is Some {
            let rest = wrappers.drop_first();
            lemma_leads(text, model, up, parent, rest);
            if through_divs(nodes, from) == Some((parent, wrappers)) {
                let inner = through_divs(nodes, up)->Some_0.1;
                assert(wrappers == seq![id] + inner);
                assert(rest =~= inner);
            }
            if wrappers.len() == 0 {
                assert(!leads_to_item(nodes, from, parent, wrappers));
                if through_divs(nodes, from) is Some {
                    let inner = through_divs(nodes, up)->Some_0.1;
                    assert((seq![id] + inner).len() > 0);
                }
            } else if leads_to_item(nodes, from, parent, wrappers) {
                assert(wrappers[0] == id);
                assert(seq![id] + rest =~= wrappers);
            }
        } else {
            if wrappers.len() > 0 && leads_to_item(nodes, from, parent, wrappers) {
                assert(up is None);
                let rest = wrappers.drop_first();
                assert(leads_to_item(nodes, up, parent, rest));
            }
        }
    }
}

/// Closing tags one after the other.
pub open spec fn closers(text: Seq<char>, nodes: Seq<HtmlNode>, ids: Seq<usize>) -> Seq<char>
    decreases ids.len(),
{
    if ids.len() == 0 {
        Seq::empty()
    } else {
        text_of(text, closing_tag(nodes[ids[0] as int]).source) + closers(
            text,
            nodes,
            ids.drop_first(),
        )
    }
}

/// Opening tags one after the other, the last element's first, without an `id`.
pub open spec fn openers(text: Seq<char>, nodes: Seq<HtmlNode>, ids: Seq<usize>) -> Seq<char>
    decreases ids.len(),
{
    if ids.len() == 0 {
        Seq::empty()
    } else {
        openers(text, nodes, ids.drop_first()) + without_id(
            text,
            opening_tag(nodes[ids[0] as int]),
        )
    }
}

proof fn lemma_closers(text: Seq<char>, nodes: Seq<HtmlNode>, ids: Seq<usize>)
    requires
        forall|k: int| 0 <= k < ids.len() ==> nodes[(#[trigger] ids[k]) as int].tags() is Some,
    ensures
        closers(text, nodes, ids) == closings_of(text, nodes, ids),
        openers(text, nodes, ids) == reopenings_of(text, nodes, ids),
    decreases ids.len(),
{
    if ids.len() == 1 {
        assert(ids.drop_first() =~= Seq::empty());
        assert(ids.drop_last() =~= Seq::empty());
        assert(closers(text, nodes, ids.drop_first()) =~= Seq::empty());
        assert(openers(text, nodes, ids.drop_first()) =~= Seq::empty());
        assert(closings_of(text, nodes, ids.drop_last()) =~= Seq::empty());
        assert(reopenings_of(text, nodes, ids.drop_last()) =~= Seq::empty());
        assert(nodes[ids[0] as int].tags() is Some);
        assert(closers(text, nodes, ids) =~= closings_of(text, nodes, ids));
        assert(openers(text, nodes, ids) =~= reopenings_of(text, nodes, ids));
    } else if ids.len() > 1 {
        let tail = ids.drop_first();
        let front = ids.drop_last();
        assert forall|k: int| 0 <= k < tail.len() implies nodes[(
        #[trigger] tail[k]) as int].tags() is Some by {
            assert(tail[k] == ids[k + 1]);
        }
        assert forall|k: int| 0 <= k < front.len() implies nodes[(
        #[trigger] front[k]) as int].tags() is Some by {
            assert(front[k] == ids[k]);
        }
        lemma_closers(text, nodes, tail);
        lemma_closers(text, nodes, front);
        let middle = tail.drop_last();
        assert(front.drop_first() =~= middle);
        assert(tail.last() == ids.last());
        assert(front[0] == ids[0]);
        assert forall|k: int| 0 <= k < middle.len() implies nodes[(
        #[trigger] middle[k]) as int].tags() is Some by {
            assert(middle[k] == ids[k + 1]);
        }
        lemma_closers(text, nodes, middle);
        assert(nodes[ids[0] as int].tags() is Some);
        assert(nodes[ids.last() as int].tags() is Some);
        assert(closers(text, nodes, ids) =~= closings_of(text, nodes, ids));
        assert(openers(text, nodes, ids) =~= reopenings_of(text, nodes, ids));
    }
}

/// Whether an item of the list stays before item `first`.
pub open spec fn stays_before(nodes: Seq<HtmlNode>, list: int, first: int) -> bool {
    exists|other: usize| #[trigger]
        child_item(nodes, list, other) && nodes[other as int].source.end
            <= nodes[first].source.start
}

/// Whether an item of the list stays behind item `last`.
pub open spec fn stays_behind(nodes: Seq<HtmlNode>, list: int, last: int) -> bool {
    exists|other: usize| #[trigger]
        child_item(nodes, list, other) && nodes[last].source.end
            <= nodes[other as int].source.start
}

/// What stays of a list before item `first`, in the list's tags where items stay there.
pub open spec fn kept_before(text: Seq<char>, nodes: Seq<HtmlNode>, list: int, first: int) -> Seq<
    char,
> {
    let between = span(
        text,
        opening_tag(nodes[list]).source.end as int,
        nodes[first].source.start as int,
    );
    if stays_before(nodes, list, first) {
        text_of(text, opening_tag(nodes[list]).source) + between + text_of(
            text,
            closing_tag(nodes[list]).source,
        )
    } else {
        between
    }
}

/// Whether `made` is what stays of a list behind item `last`: in a list of its own where items
/// stay there, which counts on where the list is ordered, and without the `id` where that
/// stays with a list before.
pub open spec fn is_kept_behind(
    text: Seq<char>,
    model: HtmlModel,
    list: int,
    first: int,
    last: int,
    made: Seq<char>,
) -> bool {
    let nodes = model.nodes@;
    let between = span(
        text,
        nodes[last].source.end as int,
        closing_tag(nodes[list]).source.start as int,
    );
    if stays_behind(nodes, list, last) {
        exists|place: int|
            0 <= place < list_items(model, list).len() && #[trigger] list_items(
                model,
                list,
            )[place] == last && made == continued_open(
                text,
                opening_tag(nodes[list]),
                stays_before(nodes, list, first),
                next_item_number(nodes[list], place + 1),
            ) + between + text_of(text, closing_tag(nodes[list]).source)
    } else {
        made == between
    }
}

/// The number of the item behind the first `count` of an ordered list. It starts at one where
/// it does not say otherwise.
pub open spec fn next_item_number(list: HtmlNode, count: int) -> Option<u64> {
    if element_named(list, "ol"@) {
        let number = count + match list.start {
            Some(start) => start as int,
            None => 1,
        };
        Some(
            if number < u64::MAX {
                number as u64
            } else {
                u64::MAX
            },
        )
    } else {
        None
    }
}

proof fn lemma_place_tells(text: Seq<char>, model: HtmlModel, list: int, id: usize, place: int)
    requires
        model.wf(text),
        0 <= list < model.nodes@.len(),
        0 <= place < list_items(model, list).len(),
        list_items(model, list)[place] == id,
    ensures
        stays_before(model.nodes@, list, id as int) <==> place > 0,
        stays_behind(model.nodes@, list, id as int) <==> place + 1 < list_items(model, list).len(),
{
    let nodes = model.nodes@;
    let items = list_items(model, list);
    lemma_items_ordered(text, model, list);
    if place > 0 {
        assert(child_item(nodes, list, items[0]));
        assert(nodes[items[0] as int].source.end <= nodes[items[place] as int].source.start);
    }
    if place + 1 < items.len() {
        assert(child_item(nodes, list, items[place + 1]));
        assert(nodes[items[place] as int].source.end <= nodes[items[place + 1] as int].source.start);
    }
    if stays_before(nodes, list, id as int) {
        let other = choose|other: usize| #[trigger]
            child_item(nodes, list, other) && nodes[other as int].source.end
                <= nodes[id as int].source.start;
        lemma_child_item(model, list, other);
        let k = choose|k: int| 0 <= k < items.len() && items[k] == other;
        if k > place {
            assert(nodes[items[place] as int].source.end <= nodes[items[k] as int].source.start);
        }
        assert(child_item(nodes, list, items[k]));
        assert(child_item(nodes, list, items[place]));
    }
    if stays_behind(nodes, list, id as int) {
        let other = choose|other: usize| #[trigger]
            child_item(nodes, list, other) && nodes[id as int].source.end
                <= nodes[other as int].source.start;
        lemma_child_item(model, list, other);
        let k = choose|k: int| 0 <= k < items.len() && items[k] == other;
        if k < place {
            assert(nodes[items[k] as int].source.end <= nodes[items[place] as int].source.start);
        }
        assert(child_item(nodes, list, items[k]));
        assert(child_item(nodes, list, items[place]));
    }
}

/// Whether `plan` moves items `first` to `last` of a list out of the item `parent` around it.
/// The item is closed before them, with what stays of it and of the list, so that they are
/// its siblings. What follows them in the list and in the item goes to the end of the last of
/// them. The caret stays at its character.
pub open spec fn moves_out(
    text: Seq<char>,
    model: HtmlModel,
    span_: ListSpan,
    parent: usize,
    wrappers: Seq<usize>,
    caret: int,
    plan: ListPlanView,
) -> bool {
    let nodes = model.nodes@;
    let list = span_.list as int;
    let first = span_.first as int;
    let last = span_.last as int;
    let around = nodes[parent as int];
    let head = span(text, around.source.start as int, nodes[list].source.start as int)
        + kept_before(text, nodes, list, first) + closers(text, nodes, wrappers) + text_of(
        text,
        closing_tag(around).source,
    );
    &&& plan.range == around.source
    &&& plan.caret == byte_len(head) + (caret - nodes[first].source.start)
    &&& exists|rest: Seq<char>| #[trigger]
        is_kept_behind(text, model, list, first, last, rest) && plan.text == head + span(
            text,
            nodes[first].source.start as int,
            closing_tag(nodes[last]).source.start as int,
        ) + openers(text, nodes, wrappers) + rest + span(
            text,
            nodes[list].source.end as int,
            closing_tag(around).source.start as int,
        ) + text_of(text, closing_tag(nodes[last]).source)
}

proof fn lemma_moves_out(
    text: Seq<char>,
    model: HtmlModel,
    span_: ListSpan,
    a: int,
    b: int,
    parent: usize,
    wrappers: Seq<usize>,
    caret: int,
)
    requires
        model.wf(text),
        span_.list < model.nodes@.len(),
        model.nodes@[span_.list as int].tags() is Some,
        0 <= a < list_items(model, span_.list as int).len(),
        list_items(model, span_.list as int)[a] == span_.first,
        0 <= b < list_items(model, span_.list as int).len(),
        list_items(model, span_.list as int)[b] == span_.last,
        list_parent(model, span_.list as int) == Some((parent, wrappers)),
    ensures
        moves_out(
            text,
            model,
            span_,
            parent,
            wrappers,
            caret,
            nested_plan(
                text,
                model,
                span_.list as int,
                span_.first as int,
                span_.last as int,
                a,
                b,
                parent,
                wrappers,
                caret,
            ),
        ),
{
    let nodes = model.nodes@;
    let list = span_.list as int;
    let first = span_.first as int;
    let last = span_.last as int;
    let items = list_items(model, list);
    lemma_place_tells(text, model, list, span_.first, a);
    lemma_place_tells(text, model, list, span_.last, b);
    law_item_around_a_list(text, model, list, parent, wrappers);
    lemma_wrappers(text, model, nodes[list].parent, parent, wrappers);
    lemma_closers(text, nodes, wrappers);
    lemma_items_ordered(text, model, list);
    assert(child_item(nodes, list, items[a]));
    assert(child_item(nodes, list, items[b]));
    let close = closing_tag(nodes[list]);
    let rest = split_right(
        text,
        nodes[list],
        nodes[last].source.end as int,
        b + 1 < items.len(),
        a > 0,
        b + 1,
    );
    assert(continued_number(nodes[list], b + 1) == next_item_number(nodes[list], b + 1));
    assert(items[b] == last);
    assert(is_kept_behind(text, model, list, first, last, rest));
}

proof fn lemma_wrappers(
    text: Seq<char>,
    model: HtmlModel,
    from: Option<usize>,
    parent: usize,
    wrappers: Seq<usize>,
)
    requires
        model.wf(text),
        leads_to_item(model.nodes@, from, parent, wrappers),
    ensures
        forall|k: int|
            0 <= k < wrappers.len() ==> model.nodes@[(#[trigger] wrappers[k]) as int].tags() is Some,
        model.nodes@[parent as int].tags() is Some,
    decreases wrappers.len(),
{
    let nodes = model.nodes@;
    if wrappers.len() > 0 {
        let rest = wrappers.drop_first();
        lemma_wrappers(text, model, nodes[wrappers[0] as int].parent, parent, rest);
        assert forall|k: int| 0 <= k < wrappers.len() implies nodes[(
        #[trigger] wrappers[k]) as int].tags() is Some by {
            if k > 0 {
                assert(wrappers[k] == rest[k - 1]);
            }
        }
    }
}

/// Moving selected items out of a nested list makes them siblings of the item around the
/// list, and needs such an item.
pub proof fn law_outdented_items_follow_the_item_around_them(
    text: Seq<char>,
    model: HtmlModel,
    span_: ListSpan,
    caret: int,
)
    requires
        model.wf(text),
        exists|start: int, end: int| #[trigger] span_ok(model, span_, start, end),
        child_item(model.nodes@, span_.list as int, span_.first),
        child_item(model.nodes@, span_.list as int, span_.last),
    ensures
        match selected_outdent(text, model, span_, caret) {
            Some(plan) => exists|parent: usize, wrappers: Seq<usize>| #[trigger]
                leads_to_item(
                    model.nodes@,
                    model.nodes@[span_.list as int].parent,
                    parent,
                    wrappers,
                ) && moves_out(text, model, span_, parent, wrappers, caret, plan),
            None => forall|parent: usize, wrappers: Seq<usize>|
                !#[trigger] leads_to_item(
                    model.nodes@,
                    model.nodes@[span_.list as int].parent,
                    parent,
                    wrappers,
                ),
        },
{
    let nodes = model.nodes@;
    let list = span_.list as int;
    let (s, e) = choose|start: int, end: int| #[trigger] span_ok(model, span_, start, end);
    assert(span_ok(model, span_, s, e));
    let items = list_items(model, list);
    lemma_place(items, span_.first);
    lemma_place(items, span_.last);
    lemma_child_item(model, list, span_.first);
    lemma_child_item(model, list, span_.last);
    match list_parent(model, list) {
        Some((parent, wrappers)) => {
            law_item_around_a_list(text, model, list, parent, wrappers);
            let a = place_of(items, span_.first)->Some_0;
            let b = place_of(items, span_.last)->Some_0;
            lemma_moves_out(text, model, span_, a, b, parent, wrappers, caret);
        },
        None => {
            assert forall|parent: usize, wrappers: Seq<usize>|
                !#[trigger] leads_to_item(nodes, nodes[list].parent, parent, wrappers) by {
                law_item_around_a_list(text, model, list, parent, wrappers);
            }
        },
    }
}

/// Whether a node lies in the content of an element.
pub open spec fn lies_in(item: HtmlNode, node: HtmlNode) -> bool {
    opening_tag(item).source.end <= node.source.start && node.source.end
        <= closing_tag(item).source.start
}

/// Whether `at` stands inside a stretch of the source, at neither of its ends.
pub open spec fn cuts(source: SourceSpan, at: int) -> bool {
    source.start < at && at < source.end
}

/// Whether `at` stands inside one of an element's tags, or inside a comment.
pub open spec fn cuts_node(node: HtmlNode, at: int) -> bool {
    match node.kind {
        HtmlNodeKind::Text => false,
        HtmlNodeKind::Comment => cuts(node.source, at),
        HtmlNodeKind::Element { opening, closing } => cuts(opening.source, at) || (
        closing matches Some(tag) && cuts(tag.source, at)),
    }
}

/// Whether a node shows something: text that is not blank, an image, a disclosure or a list.
pub open spec fn shows(text: Seq<char>, node: HtmlNode) -> bool {
    match node.kind {
        HtmlNodeKind::Text => !blank(text_of(text, node.source)),
        HtmlNodeKind::Comment => false,
        HtmlNodeKind::Element { opening, .. } => opening.name@ == "ul"@ || opening.name@ == "ol"@
            || opening.name@ == "img"@ || opening.name@ == "details"@,
    }
}

/// Whether a node is an element that is a block: a paragraph, a heading, a list, a division or
/// a disclosure.
pub open spec fn is_block(node: HtmlNode) -> bool {
    node.kind matches HtmlNodeKind::Element { opening, .. } && block_tag(opening.name@)
}

/// Whether an element of this name is a block.
pub open spec fn block_tag(name: Seq<char>) -> bool {
    name == "p"@ || name == "h1"@ || name == "h2"@ || name == "h3"@ || name == "h4"@ || name
        == "h5"@ || name == "h6"@ || name == "ul"@ || name == "ol"@ || name == "div"@ || name
        == "details"@
}

/// Whether the item can be left with the caret at `at`: the caret stands in no tag and no
/// comment of it, and where it has to be empty, it shows nothing.
pub open spec fn can_be_left(
    text: Seq<char>,
    nodes: Seq<HtmlNode>,
    item: HtmlNode,
    at: int,
    empty: bool,
) -> bool {
    forall|n: int|
        0 <= n < nodes.len() && lies_in(item, #[trigger] nodes[n]) ==> !cuts_node(nodes[n], at)
            && !(empty && shows(text, nodes[n]))
}

/// An opening tag with another name.
pub open spec fn tag_renamed(text: Seq<char>, tag: HtmlTag, name: Seq<char>) -> Seq<char> {
    let start = tag.source.start as int;
    span(text, start, start + 1) + name + span(
        text,
        start + 1 + byte_len(tag.name@),
        tag.source.end as int,
    )
}

/// Whether `plan` takes an item out of an outermost list. What stays of the list before and
/// behind it stays in lists. Its content becomes a paragraph, or a division where it holds a
/// block, with the item's attributes; in a table a division without attributes is left out.
/// An empty item that holds a block but no paragraph gets one for the caret.
pub open spec fn leaves_list(
    text: Seq<char>,
    model: HtmlModel,
    list: int,
    item: int,
    at: int,
    empty: bool,
    plan: ListPlanView,
) -> bool {
    let nodes = model.nodes@;
    let tag = opening_tag(nodes[item]);
    let block = exists|n: int|
        0 <= n < nodes.len() && lies_in(nodes[item], #[trigger] nodes[n]) && is_block(nodes[n]);
    let paragraph = exists|n: int|
        0 <= n < nodes.len() && lies_in(nodes[item], #[trigger] nodes[n]) && (
        nodes[n].kind matches HtmlNodeKind::Element { opening, .. } && (opening.name@ == "p"@
            || opening.name@ == "h1"@ || opening.name@ == "h2"@ || opening.name@ == "h3"@
            || opening.name@ == "h4"@ || opening.name@ == "h5"@ || opening.name@ == "h6"@));
    let in_table = exists|n: int|
        0 <= n < nodes.len() && element_named(#[trigger] nodes[n], "table"@)
            && nodes[n].source.start <= at <= nodes[n].source.end;
    let name = if block {
        "div"@
    } else {
        "p"@
    };
    let bare = block && tag.attributes@.len() == 0 && in_table;
    let added = empty && block && !paragraph;
    let body = span(
        text,
        tag.source.end as int,
        closing_tag(nodes[item]).source.start as int,
    );
    let head = kept_before(text, nodes, list, item) + (if bare {
        Seq::empty()
    } else {
        tag_renamed(text, tag, name)
    });
    &&& plan.range == nodes[list].source
    &&& exists|rest: Seq<char>| #[trigger]
        is_kept_behind(text, model, list, item, item, rest) && plan.text == head + body + (
        if added {
            "<p></p>"@
        } else {
            Seq::empty()
        }) + (if bare {
            Seq::empty()
        } else {
            seq!['<', '/'] + name + seq!['>']
        }) + rest
    &&& plan.caret == (if added {
        byte_len(head + body) + 3
    } else {
        byte_len(head) + (at - tag.source.end)
    })
}

proof fn lemma_can_be_left(
    text: Seq<char>,
    model: HtmlModel,
    item: HtmlNode,
    at: int,
    empty: bool,
)
    requires
        item.tags() is Some,
    ensures
        exit_prevented(text, model, item, at, empty) <==> !can_be_left(
            text,
            model.nodes@,
            item,
            at,
            empty,
        ),
{
    let nodes = model.nodes@;
    assert forall|n: int| 0 <= n < nodes.len() implies in_content(item, #[trigger] nodes[n])
        == lies_in(item, nodes[n]) && prevents_exit(text, nodes[n], at, empty) == (cuts_node(
        nodes[n],
        at,
    ) || (empty && shows(text, nodes[n]))) by {}
    if exit_prevented(text, model, item, at, empty) {
        let n = choose|n: int|
            0 <= n < nodes.len() && in_content(item, #[trigger] nodes[n]) && prevents_exit(
                text,
                nodes[n],
                at,
                empty,
            );
        assert(lies_in(item, nodes[n]));
    } else {
        assert forall|n: int| 0 <= n < nodes.len() && lies_in(item, #[trigger] nodes[n]) implies
            !cuts_node(nodes[n], at) && !(empty && shows(text, nodes[n])) by {
            assert(in_content(item, nodes[n]));
        }
    }
}

/// Leaving a list with the caret at `caret` takes the innermost item there one level out: out
/// of the item around its list where there is one, else out of the list. It works exactly
/// where that item is in a list and can be left.
pub proof fn law_left_item_goes_one_level_out(
    text: Seq<char>,
    model: HtmlModel,
    caret: int,
    empty: bool,
)
    requires
        model.wf(text),
    ensures
        ({
            let nodes = model.nodes@;
            let item = item_at(model, caret);
            let list = nodes[item->Some_0 as int].parent;
            let plan = outdent_at(text, model, caret, empty);
            &&& plan is Some <==> item is Some && list is Some && (element_named(
                nodes[list->Some_0 as int],
                "ul"@,
            ) || element_named(nodes[list->Some_0 as int], "ol"@)) && child_item(
                nodes,
                list->Some_0 as int,
                item->Some_0,
            ) && can_be_left(text, nodes, nodes[item->Some_0 as int], caret, empty)
            &&& plan matches Some(made) ==> {
                let span_ = ListSpan {
                    list: list->Some_0,
                    first: item->Some_0,
                    last: item->Some_0,
                };
                ||| exists|parent: usize, wrappers: Seq<usize>| #[trigger]
                    leads_to_item(
                        nodes,
                        nodes[list->Some_0 as int].parent,
                        parent,
                        wrappers,
                    ) && moves_out(text, model, span_, parent, wrappers, caret, made)
                ||| (forall|parent: usize, wrappers: Seq<usize>|
                    !#[trigger] leads_to_item(
                        nodes,
                        nodes[list->Some_0 as int].parent,
                        parent,
                        wrappers,
                    )) && leaves_list(
                    text,
                    model,
                    list->Some_0 as int,
                    item->Some_0 as int,
                    caret,
                    empty,
                    made,
                )
            }
        }),
{
    let nodes = model.nodes@;
    law_item_at_a_place_is_the_innermost(model, caret);
    if let Some(item) = item_at(model, caret) {
        if let Some(up) = nodes[item as int].parent {
            let list = up as int;
            assert(nodes[item as int].wf(text));
            assert(up < item);
            assert(nodes[list].wf(text));
            let items = list_items(model, list);
            lemma_place(items, item);
            lemma_child_item(model, list, item);
            lemma_can_be_left(text, model, nodes[item as int], caret, empty);
            if let Some(plan) = outdent_at(text, model, caret, empty) {
                let span_ = ListSpan { list: up, first: item, last: item };
                let place = place_of(items, item)->Some_0;
                match list_parent(model, list) {
                    Some((parent, wrappers)) => {
                        law_item_around_a_list(text, model, list, parent, wrappers);
                        lemma_moves_out(text, model, span_, place, place, parent, wrappers, caret);
                    },
                    None => {
                        assert forall|parent: usize, wrappers: Seq<usize>|
                            !#[trigger] leads_to_item(
                                nodes,
                                nodes[list].parent,
                                parent,
                                wrappers,
                            ) by {
                            law_item_around_a_list(text, model, list, parent, wrappers);
                        }
                        lemma_leaves_list(
                            text,
                            model,
                            list,
                            item as int,
                            place,
                            caret,
                            empty,
                        );
                    },
                }
            }
        }
    }
}

proof fn lemma_leaves_list(
    text: Seq<char>,
    model: HtmlModel,
    list: int,
    item: int,
    place: int,
    caret: int,
    empty: bool,
)
    requires
        model.wf(text),
        0 <= list < model.nodes@.len(),
        0 <= item < model.nodes@.len(),
        model.nodes@[list].tags() is Some,
        model.nodes@[item].tags() is Some,
        0 <= place < list_items(model, list).len(),
        list_items(model, list)[place] == item,
    ensures
        leaves_list(
            text,
            model,
            list,
            item,
            caret,
            empty,
            root_plan(text, model, list, item, place, caret, empty),
        ),
{
    let nodes = model.nodes@;
    let items = list_items(model, list);
    let node = nodes[item];
    let tag = opening_tag(node);
    lemma_place_tells(text, model, list, items[place], place);
    let rest = split_right(
        text,
        nodes[list],
        node.source.end as int,
        place + 1 < items.len(),
        place > 0,
        place + 1,
    );
    assert(continued_number(nodes[list], place + 1) == next_item_number(nodes[list], place + 1));
    assert(items[place] == item);
    assert(is_kept_behind(text, model, list, item, item, rest));
    let block = exists|n: int|
        0 <= n < nodes.len() && lies_in(node, #[trigger] nodes[n]) && is_block(nodes[n]);
    assert(holds_block(model, node) == block) by {
        if holds_block(model, node) {
            let n = choose|n: int|
                0 <= n < nodes.len() && in_content(node, #[trigger] nodes[n]) && (
                nodes[n].kind matches HtmlNodeKind::Element { opening, .. } && block_name(
                    opening.name@,
                ));
            assert(lies_in(node, nodes[n]) && is_block(nodes[n]));
        }
        if block {
            let n = choose|n: int|
                0 <= n < nodes.len() && lies_in(node, #[trigger] nodes[n]) && is_block(nodes[n]);
            assert(in_content(node, nodes[n]));
        }
    }
    let paragraph = exists|n: int|
        0 <= n < nodes.len() && lies_in(node, #[trigger] nodes[n]) && (
        nodes[n].kind matches HtmlNodeKind::Element { opening, .. } && (opening.name@ == "p"@
            || opening.name@ == "h1"@ || opening.name@ == "h2"@ || opening.name@ == "h3"@
            || opening.name@ == "h4"@ || opening.name@ == "h5"@ || opening.name@ == "h6"@));
    assert(holds_paragraph(model, node) == paragraph) by {
        if holds_paragraph(model, node) {
            let n = choose|n: int|
                0 <= n < nodes.len() && in_content(node, #[trigger] nodes[n]) && (
                nodes[n].kind matches HtmlNodeKind::Element { opening, .. } && paragraph_name(
                    opening.name@,
                ));
            assert(lies_in(node, nodes[n]));
        }
        if paragraph {
            let n = choose|n: int|
                0 <= n < nodes.len() && lies_in(node, #[trigger] nodes[n]) && (
                nodes[n].kind matches HtmlNodeKind::Element { opening, .. } && (opening.name@
                    == "p"@ || opening.name@ == "h1"@ || opening.name@ == "h2"@ || opening.name@
                    == "h3"@ || opening.name@ == "h4"@ || opening.name@ == "h5"@ || opening.name@
                    == "h6"@));
            assert(in_content(node, nodes[n]));
        }
    }
    let tabled = exists|n: int|
        0 <= n < nodes.len() && element_named(#[trigger] nodes[n], "table"@)
            && nodes[n].source.start <= caret <= nodes[n].source.end;
    assert(in_table(model, caret) == tabled) by {
        if in_table(model, caret) {
            let n = choose|n: int|
                0 <= n < nodes.len() && named(#[trigger] nodes[n], "table"@)
                    && nodes[n].source.start <= caret <= nodes[n].source.end;
            assert(element_named(nodes[n], "table"@));
        }
        if tabled {
            let n = choose|n: int|
                0 <= n < nodes.len() && element_named(#[trigger] nodes[n], "table"@)
                    && nodes[n].source.start <= caret <= nodes[n].source.end;
            assert(named(nodes[n], "table"@));
        }
    }
    reveal_strlit("<p>");
    reveal_strlit("</p>");
    reveal_strlit("<p></p>");
    reveal_strlit("</");
    reveal_strlit(">");
    assert("<p>"@ + "</p>"@ =~= "<p></p>"@);
    assert("</"@ =~= seq!['<', '/']);
    assert(">"@ =~= seq!['>']);
    let plan = root_plan(text, model, list, item, place, caret, empty);
    let name = if block {
        "div"@
    } else {
        "p"@
    };
    let bare = block && tag.attributes@.len() == 0 && tabled;
    let added = empty && block && !paragraph;
    let body = span(text, tag.source.end as int, closing_tag(node).source.start as int);
    let head = kept_before(text, nodes, list, item) + (if bare {
        Seq::empty()
    } else {
        tag_renamed(text, tag, name)
    });
    if added {
        let tagged = "<p>"@;
        assert(vstd::utf8::is_ascii_chars(tagged));
        vstd::utf8::is_ascii_chars_encode_utf8(tagged);
        lemma_encode_concat(head + body, tagged);
    }
    assert(plan.text == head + body + (if added {
        "<p></p>"@
    } else {
        Seq::empty()
    }) + (if bare {
        Seq::empty()
    } else {
        seq!['<', '/'] + name + seq!['>']
    }) + rest);
}

/// Whether `path` leads from a node's parent up the tree, each node the parent of the one
/// before.
pub open spec fn leads_up(nodes: Seq<HtmlNode>, from: Option<usize>, path: Seq<usize>) -> bool {
    &&& path.len() > 0
    &&& from == Some(path[0])
    &&& forall|k: int|
        0 <= k < path.len() - 1 ==> nodes[(#[trigger] path[k]) as int].parent == Some(path[k + 1])
}

/// A list is inside an item exactly where an item is among its ancestors.
pub proof fn law_items_around_a_list(text: Seq<char>, model: HtmlModel, list: int)
    requires
        model.wf(text),
        0 <= list < model.nodes@.len(),
    ensures
        under_item(model.nodes@, model.nodes@[list].parent) <==> exists|path: Seq<usize>| #[trigger]
            leads_up(model.nodes@, model.nodes@[list].parent, path) && element_named(
                model.nodes@[path.last() as int],
                "li"@,
            ),
{
    let from = model.nodes@[list].parent;
    assert(from matches Some(p) ==> p < list);
    lemma_item_above(text, model, from);
    if exists|path: Seq<usize>| #[trigger]
        leads_up(model.nodes@, from, path) && element_named(
            model.nodes@[path.last() as int],
            "li"@,
        ) {
        let path = choose|path: Seq<usize>| #[trigger]
            leads_up(model.nodes@, from, path) && element_named(
                model.nodes@[path.last() as int],
                "li"@,
            );
        lemma_path_above(text, model, from, path);
    }
}

proof fn lemma_item_above(text: Seq<char>, model: HtmlModel, from: Option<usize>)
    requires
        model.wf(text),
        from matches Some(id) ==> id < model.nodes@.len(),
    ensures
        under_item(model.nodes@, from) ==> exists|path: Seq<usize>| #[trigger]
            leads_up(model.nodes@, from, path) && element_named(
                model.nodes@[path.last() as int],
                "li"@,
            ),
    decreases
            match from {
                Some(id) => id + 1,
                None => 0,
            },
{
    let nodes = model.nodes@;
    if let Some(id) = from {
        let up = nodes[id as int].parent;
        assert(up matches Some(p) ==> p < id);
        if under_item(nodes, from) {
            if is_item(nodes[id as int]) {
                let path = seq![id];
                assert(leads_up(nodes, from, path));
            } else {
                lemma_item_above(text, model, up);
                let rest = choose|path: Seq<usize>| #[trigger]
                    leads_up(nodes, up, path) && element_named(
                        nodes[path.last() as int],
                        "li"@,
                    );
                let path = seq![id] + rest;
                assert forall|k: int| 0 <= k < path.len() - 1 implies nodes[(
                #[trigger] path[k]) as int].parent == Some(path[k + 1]) by {
                    if k > 0 {
                        assert(path[k] == rest[k - 1]);
                    }
                }
                assert(path.last() == rest.last());
                assert(leads_up(nodes, from, path));
            }
        }
    }
}

proof fn lemma_path_above(
    text: Seq<char>,
    model: HtmlModel,
    from: Option<usize>,
    path: Seq<usize>,
)
    requires
        model.wf(text),
        from matches Some(id) ==> id < model.nodes@.len(),
        leads_up(model.nodes@, from, path),
        element_named(model.nodes@[path.last() as int], "li"@),
    ensures
        under_item(model.nodes@, from),
    decreases path.len(),
{
    let nodes = model.nodes@;
    let id = path[0];
    let up = nodes[id as int].parent;
    assert(up matches Some(p) ==> p < id);
    if path.len() > 1 {
        let rest = path.drop_first();
        assert(nodes[path[0] as int].parent == Some(path[1]));
        assert forall|k: int| 0 <= k < rest.len() - 1 implies nodes[(
        #[trigger] rest[k]) as int].parent == Some(rest[k + 1]) by {
            assert(nodes[path[k + 1] as int].parent == Some(path[k + 2]));
        }
        assert(rest.last() == path.last());
        lemma_path_above(text, model, up, rest);
    }
}

/// What an item becomes that leaves an outermost list: a paragraph, or a division where a
/// child of it is a block, with the item's attributes and content.
pub open spec fn freed_item(text: Seq<char>, nodes: Seq<HtmlNode>, item: HtmlNode) -> Seq<char> {
    let block = exists|k: int|
        0 <= k < item.children@.len() && is_closed_block(
            nodes[(#[trigger] item.children@[k]) as int],
        );
    let name = if block {
        "div"@
    } else {
        "p"@
    };
    tag_renamed(text, opening_tag(item), name) + span(
        text,
        opening_tag(item).source.end as int,
        closing_tag(item).source.start as int,
    ) + (seq!['<', '/'] + name + seq!['>'])
}

/// Whether a node is a block with both tags.
pub open spec fn is_closed_block(node: HtmlNode) -> bool {
    node.kind matches HtmlNodeKind::Element { opening, closing: Some(_) } && block_tag(
        opening.name@,
    )
}

/// What the items at places `a` to `b` of a list become, in their order.
pub open spec fn freed_items(text: Seq<char>, model: HtmlModel, list: int, a: int, b: int) -> Seq<
    Seq<char>,
> {
    let items = list_items(model, list);
    Seq::new(
        (b - a + 1) as nat,
        |k: int| freed_item(text, model.nodes@, model.nodes@[items[a + k] as int]),
    )
}

/// What stands between those items.
pub open spec fn freed_gaps(text: Seq<char>, model: HtmlModel, list: int, a: int, b: int) -> Seq<
    Seq<char>,
> {
    let items = list_items(model, list);
    Seq::new(
        (b - a) as nat,
        |k: int|
            span(
                text,
                model.nodes@[items[a + k] as int].source.end as int,
                model.nodes@[items[a + k + 1] as int].source.start as int,
            ),
    )
}

proof fn lemma_freed_item(text: Seq<char>, nodes: Seq<HtmlNode>, item: HtmlNode)
    requires
        item.tags() is Some,
    ensures
        freed_item(text, nodes, item) == item_exit_open(text, nodes, item) + item_body(text, item)
            + item_exit_close(nodes, item),
{
    let block = exists|k: int|
        0 <= k < item.children@.len() && is_closed_block(
            nodes[(#[trigger] item.children@[k]) as int],
        );
    let count = item.children@.len() as int;
    assert(block_children(nodes, item, count) == block) by {
        if block_children(nodes, item, count) {
            let k = choose|k: int|
                0 <= k < count && (nodes[(#[trigger] item.children@[k]) as int].tags() matches Some(
                    (open, _),
                ) && block_name(open.name@));
            assert(is_closed_block(nodes[item.children@[k] as int]));
        }
        if block {
            let k = choose|k: int|
                0 <= k < item.children@.len() && is_closed_block(
                    nodes[(#[trigger] item.children@[k]) as int],
                );
            assert(nodes[item.children@[k] as int].tags() is Some);
        }
    }
    reveal_strlit("</");
    reveal_strlit(">");
    assert("</"@ =~= seq!['<', '/']);
    assert(">"@ =~= seq!['>']);
}

proof fn lemma_through(
    text: Seq<char>,
    model: HtmlModel,
    items: Seq<usize>,
    head: Seq<char>,
    a: int,
    k: int,
)
    requires
        a <= k,
        model.nodes@[items[k] as int].tags() is Some,
    ensures
        ({
            let freed = freed_item(text, model.nodes@, model.nodes@[items[k] as int]);
            let made = through_item(text, model, items, head, a, k);
            if k == a {
                made == head + freed
            } else {
                made == through_item(text, model, items, head, a, k - 1) + span(
                    text,
                    model.nodes@[items[k - 1] as int].source.end as int,
                    model.nodes@[items[k] as int].source.start as int,
                ) + freed
            }
        }),
{
    let item = model.nodes@[items[k] as int];
    lemma_freed_item(text, model.nodes@, item);
    let open = item_exit_open(text, model.nodes@, item);
    let body = item_body(text, item);
    let close = item_exit_close(model.nodes@, item);
    let made = through_item(text, model, items, head, a, k);
    if k == a {
        assert(made == head + open + body + close);
        assert(made =~= head + (open + body + close));
    } else {
        let before = through_item(text, model, items, head, a, k - 1) + span(
            text,
            model.nodes@[items[k - 1] as int].source.end as int,
            item.source.start as int,
        );
        assert(made == before + open + body + close);
        assert(made =~= before + (open + body + close));
    }
}

#[verifier::spinoff_prover]
proof fn lemma_freed(
    text: Seq<char>,
    model: HtmlModel,
    list: int,
    head: Seq<char>,
    a: int,
    b: int,
    k: int,
)
    requires
        model.wf(text),
        0 <= list < model.nodes@.len(),
        0 <= a <= k <= b < list_items(model, list).len(),
    ensures
        through_item(text, model, list_items(model, list), head, a, k) == head + woven(
            freed_items(text, model, list, a, b).take(k - a + 1),
            freed_gaps(text, model, list, a, b),
        ),
    decreases k - a,
{
    let nodes = model.nodes@;
    let items = list_items(model, list);
    let item = nodes[items[k] as int];
    let texts = freed_items(text, model, list, a, b);
    let gaps = freed_gaps(text, model, list, a, b);
    lemma_items_ordered(text, model, list);
    assert(child_item(nodes, list, items[k]));
    assert(texts[k - a] == freed_item(text, nodes, item));
    let made = through_item(text, model, items, head, a, k);
    lemma_through(text, model, items, head, a, k);
    if k == a {
        assert(texts.take(1).len() == 1 && texts.take(1)[0] == texts[0]);
        assert(made == head + texts[0]);
        assert(woven(texts.take(1), gaps) == texts[0]);
    } else {
        lemma_freed(text, model, list, head, a, b, k - 1);
        lemma_woven_push(texts, gaps, k - a + 1);
        let before = through_item(text, model, items, head, a, k - 1);
        assert(gaps[k - 1 - a] == span(
            text,
            nodes[items[k - 1] as int].source.end as int,
            item.source.start as int,
        ));
        assert(made == before + gaps[k - 1 - a] + texts[k - a]);
        let part = woven(texts.take(k - a), gaps);
        assert(head + part + gaps[k - 1 - a] + texts[k - a] =~= head + (part + gaps[k - 1 - a]
            + texts[k - a]));
    }
}

/// Whether `place` is where the source offset `at` of an item's content stands in `made`:
/// behind as much of the content as stood before `at`.
pub open spec fn follows_content(
    text: Seq<char>,
    item: HtmlNode,
    at: int,
    made: Seq<char>,
    place: int,
) -> bool {
    let body = span(
        text,
        opening_tag(item).source.end as int,
        closing_tag(item).source.start as int,
    );
    exists|before: Seq<char>, behind: Seq<char>|
        made == #[trigger] (before + body + behind) && place == byte_len(before) + (at
            - opening_tag(item).source.end)
}

proof fn lemma_point(
    text: Seq<char>,
    model: HtmlModel,
    list: int,
    head: Seq<char>,
    a: int,
    b: int,
    k: int,
    at: int,
    rest: Seq<char>,
)
    requires
        model.wf(text),
        0 <= list < model.nodes@.len(),
        0 <= a <= b < list_items(model, list).len(),
        a - 1 <= k <= b,
        moved_point(text, model, list_items(model, list), head, a, k, at) is Some,
    ensures
        exists|j: int|
            a <= j <= b && stands_in_item(
                model.nodes@[(#[trigger] list_items(model, list)[j]) as int],
                at,
            ) && follows_content(
                text,
                model.nodes@[list_items(model, list)[j] as int],
                at,
                through_item(text, model, list_items(model, list), head, a, b) + rest,
                moved_point(text, model, list_items(model, list), head, a, k, at)->Some_0,
            ),
    decreases k - a + 1,
{
    let items = list_items(model, list);
    let nodes = model.nodes@;
    if k >= a {
        let item = nodes[items[k] as int];
        if content_holds(item, at) {
            lemma_items_ordered(text, model, list);
            assert(child_item(nodes, list, items[k]));
            let before = before_body(text, model, items, head, a, k);
            let body = item_body(text, item);
            let more = lemma_through_grows(text, model, items, head, a, k, b);
            let behind = item_exit_close(nodes, item) + more + rest;
            let made = through_item(text, model, items, head, a, b) + rest;
            assert(made =~= before + body + behind);
            assert(item.tags() is Some);
            assert(body == span(
                text,
                opening_tag(item).source.end as int,
                closing_tag(item).source.start as int,
            ));
            assert(made == (before + body + behind));
            assert(follows_content(
                text,
                item,
                at,
                made,
                byte_len(before) + (at - opening_tag(item).source.end),
            ));
            assert(stands_in_item(nodes[items[k] as int], at));
        } else {
            lemma_point(text, model, list, head, a, b, k - 1, at, rest);
        }
    }
}

proof fn lemma_through_grows(
    text: Seq<char>,
    model: HtmlModel,
    items: Seq<usize>,
    head: Seq<char>,
    a: int,
    k: int,
    b: int,
) -> (more: Seq<char>)
    requires
        a <= k <= b,
    ensures
        through_item(text, model, items, head, a, b) == through_item(
            text,
            model,
            items,
            head,
            a,
            k,
        ) + more,
    decreases b - k,
{
    if k == b {
        let none = Seq::<char>::empty();
        assert(through_item(text, model, items, head, a, b) + none =~= through_item(
            text,
            model,
            items,
            head,
            a,
            b,
        ));
        none
    } else {
        let before = lemma_through_grows(text, model, items, head, a, k, b - 1);
        let nodes = model.nodes@;
        let item = nodes[items[b] as int];
        let previous = nodes[items[b - 1] as int];
        let added = span(text, previous.source.end as int, item.source.start as int)
            + item_exit_open(text, nodes, item) + item_body(text, item) + item_exit_close(
            nodes,
            item,
        );
        let more = before + added;
        assert(through_item(text, model, items, head, a, b) =~= through_item(
            text,
            model,
            items,
            head,
            a,
            k,
        ) + more);
        more
    }
}

/// Selected items that leave an outermost list become paragraphs or divisions in the same
/// order, with what stood between them; what stays of the list before and behind them stays
/// in lists. Every given point stays at its character in the content of an item. Nothing
/// leaves a list inside an item this way, nor where a point is in none of the items.
pub proof fn law_items_that_leave_a_list_keep_their_content(
    text: Seq<char>,
    model: HtmlModel,
    span_: ListSpan,
    points: Seq<usize>,
    plan: PointsPlan,
)
    requires
        model.wf(text),
        exists|start: int, end: int| #[trigger] span_ok(model, span_, start, end),
        is_root_exit(text, model, span_, points, Some(plan)),
    ensures
        ({
            let nodes = model.nodes@;
            let list = span_.list as int;
            let items = list_items(model, list);
            &&& !under_item(nodes, nodes[list].parent)
            &&& plan.range == nodes[list].source
            &&& plan.points@.len() == points.len()
            &&& exists|a: int, b: int|
                {
                    &&& 0 <= a <= b < items.len()
                    &&& #[trigger] items[a] == span_.first && #[trigger] items[b] == span_.last
                    &&& exists|rest: Seq<char>| #[trigger]
                        is_kept_behind(
                            text,
                            model,
                            list,
                            span_.first as int,
                            span_.last as int,
                            rest,
                        ) && plan.text@ == kept_before(text, nodes, list, span_.first as int)
                            + woven(
                            freed_items(text, model, list, a, b),
                            freed_gaps(text, model, list, a, b),
                        ) + rest
                    &&& forall|i: int|
                        0 <= i < points.len() ==> exists|j: int|
                            a <= j <= b && stands_in_item(
                                nodes[(#[trigger] items[j]) as int],
                                (#[trigger] points[i]) as int,
                            ) && follows_content(
                                text,
                                nodes[items[j] as int],
                                points[i] as int,
                                plan.text@,
                                plan.points@[i] as int,
                            )
                }
        }),
{
    let nodes = model.nodes@;
    let list = span_.list as int;
    let (s, e) = choose|start: int, end: int| #[trigger] span_ok(model, span_, start, end);
    assert(span_ok(model, span_, s, e));
    let items = list_items(model, list);
    let (a, b) = root_exit_places(model, span_)->Some_0;
    lemma_place(items, span_.first);
    lemma_place(items, span_.last);
    lemma_items_ordered(text, model, list);
    assert(child_item(nodes, list, items[a]) && child_item(nodes, list, items[b]));
    if b < a {
        assert(nodes[items[b] as int].source.end <= nodes[items[a] as int].source.start);
    }
    lemma_place_tells(text, model, list, span_.first, a);
    lemma_place_tells(text, model, list, span_.last, b);
    let head = split_left(text, nodes[list], nodes[items[a] as int].source.start as int, a > 0);
    assert(head == kept_before(text, nodes, list, span_.first as int));
    lemma_freed(text, model, list, head, a, b, b);
    let texts = freed_items(text, model, list, a, b);
    assert(texts.take(b - a + 1) =~= texts);
    let rest = split_right(
        text,
        nodes[list],
        nodes[items[b] as int].source.end as int,
        b + 1 < items.len(),
        a > 0,
        b + 1,
    );
    assert(continued_number(nodes[list], b + 1) == next_item_number(nodes[list], b + 1));
    assert(items[b] == span_.last);
    assert(items[a] == span_.first);
    assert(is_kept_behind(text, model, list, span_.first as int, span_.last as int, rest));
    assert forall|i: int| 0 <= i < points.len() implies exists|j: int|
        a <= j <= b && stands_in_item(
            nodes[(#[trigger] items[j]) as int],
            (#[trigger] points[i]) as int,
        ) && follows_content(
            text,
            nodes[items[j] as int],
            points[i] as int,
            plan.text@,
            plan.points@[i] as int,
        ) by {
        assert(root_exit_point(text, model, list, a, b, points[i] as int) == Some(
            plan.points@[i] as int,
        ));
        lemma_point(text, model, list, head, a, b, b, points[i] as int, rest);
    }
}

/// Whether a node of an item's content is an element around the caret: it has to be closed and
/// opened again where the item is split there.
pub open spec fn is_around(item: HtmlNode, node: HtmlNode, caret: int) -> bool {
    lies_in(item, node) && (node.kind matches HtmlNodeKind::Element {
        opening,
        closing: Some(closing),
    } && opening.source.end <= caret <= closing.source.start)
}

/// Whether a node of an item's content keeps the item from being split at the caret: the caret
/// is inside one of its tags, or it is a list, a disclosure or a summary around the caret.
pub open spec fn keeps_whole(item: HtmlNode, node: HtmlNode, caret: int) -> bool {
    lies_in(item, node) && (node.kind matches HtmlNodeKind::Element { opening, closing } && (cuts(
        opening.source,
        caret,
    ) || (closing matches Some(tag) && cuts(tag.source, caret)) || (is_around(item, node, caret)
        && (opening.name@ == "ul"@ || opening.name@ == "ol"@ || opening.name@ == "details"@
        || opening.name@ == "summary"@))))
}

/// Whether `ids` are the nodes of an item's content around the caret, from the outside in.
pub open spec fn are_around(nodes: Seq<HtmlNode>, item: usize, caret: int, ids: Seq<usize>)
    -> bool {
    &&& forall|k: int|
        0 <= k < ids.len() ==> (#[trigger] ids[k]) != item && ids[k] < nodes.len() && is_around(
            nodes[item as int],
            nodes[ids[k] as int],
            caret,
        )
    &&& forall|j: int, k: int|
        #![trigger ids[j], ids[k]]
        0 <= j < k < ids.len() ==> ids[j] < ids[k]
    &&& forall|n: int|
        0 <= n < nodes.len() && n != item && is_around(
            nodes[item as int],
            #[trigger] nodes[n],
            caret,
        ) ==> ids.contains(n as usize)
}

proof fn lemma_around(model: HtmlModel, item: int, caret: int, count: int)
    requires
        0 <= item < model.nodes@.len(),
        model.nodes@[item].tags() is Some,
        0 <= count <= model.nodes@.len() <= usize::MAX,
    ensures
        ({
            let nodes = model.nodes@;
            let ids = split_wrappers(model, item, caret, count);
            &&& forall|k: int|
                0 <= k < ids.len() ==> (#[trigger] ids[k]) != item && ids[k] < count && is_around(
                    nodes[item],
                    nodes[ids[k] as int],
                    caret,
                )
            &&& forall|j: int, k: int|
                #![trigger ids[j], ids[k]]
                0 <= j < k < ids.len() ==> ids[j] < ids[k]
            &&& forall|n: int|
                0 <= n < count && n != item && is_around(nodes[item], #[trigger] nodes[n], caret)
                    ==> ids.contains(n as usize)
        }),
    decreases count,
{
    if count > 0 {
        lemma_around(model, item, caret, count - 1);
        let nodes = model.nodes@;
        let before = split_wrappers(model, item, caret, count - 1);
        let ids = split_wrappers(model, item, caret, count);
        assert(wraps_caret(model, item, count - 1, caret) == (count - 1 != item && is_around(
            nodes[item],
            nodes[count - 1],
            caret,
        )));
        assert forall|k: int| 0 <= k < ids.len() implies (#[trigger] ids[k]) != item && ids[k]
            < count && is_around(nodes[item], nodes[ids[k] as int], caret) by {
            if k < before.len() {
                assert(ids[k] == before[k]);
            }
        }
        assert forall|j: int, k: int|
            #![trigger ids[j], ids[k]]
            0 <= j < k < ids.len() implies ids[j] < ids[k] by {
            assert(ids[j] == before[j]);
            if k < before.len() {
                assert(ids[k] == before[k]);
            }
        }
        assert forall|n: int|
            0 <= n < count && n != item && is_around(
                nodes[item],
                #[trigger] nodes[n],
                caret,
            ) implies ids.contains(n as usize) by {
            if n < count - 1 {
                assert(before.contains(n as usize));
                let k = choose|k: int| 0 <= k < before.len() && before[k] == n as usize;
                assert(ids[k] == n as usize);
            } else {
                assert(ids.last() == n as usize);
            }
        }
    }
}

proof fn lemma_wrapper_tags(text: Seq<char>, nodes: Seq<HtmlNode>, ids: Seq<usize>)
    requires
        forall|k: int| 0 <= k < ids.len() ==> nodes[(#[trigger] ids[k]) as int].tags() is Some,
    ensures
        closed_wrappers(text, nodes, ids) == closers(text, nodes, ids.reverse()),
        reopened_wrappers(text, nodes, ids) == openers(text, nodes, ids.reverse()),
    decreases ids.len(),
{
    let back = ids.reverse();
    if ids.len() > 0 {
        let front = ids.drop_last();
        assert forall|k: int| 0 <= k < front.len() implies nodes[(
        #[trigger] front[k]) as int].tags() is Some by {
            assert(front[k] == ids[k]);
        }
        lemma_wrapper_tags(text, nodes, front);
        assert(back.drop_first() =~= front.reverse());
        assert(back[0] == ids.last());
        assert(nodes[ids.last() as int].tags() is Some);
    }
}

/// Splitting an item closes, at the caret, all elements of the item around the caret from the
/// inside out and the item itself, and opens them again in the opposite order without their
/// `id`: the text before the caret stays in the item, and the text behind it is in a new item
/// right after it. The innermost item is split, exactly where it shows something and the caret
/// is in no tag of it and in no list, disclosure or summary inside of it.
pub proof fn law_split_item_becomes_two(text: Seq<char>, model: HtmlModel, caret: int)
    requires
        model.wf(text),
    ensures
        ({
            let nodes = model.nodes@;
            let at = item_at(model, caret);
            let item = nodes[at->Some_0 as int];
            let made = split_markup(text, model, caret);
            &&& made is Some <==> at is Some && (exists|n: int|
                0 <= n < nodes.len() && lies_in(item, #[trigger] nodes[n]) && shows(
                    text,
                    nodes[n],
                )) && (forall|n: int|
                0 <= n < nodes.len() && n != at->Some_0 ==> !keeps_whole(
                    item,
                    #[trigger] nodes[n],
                    caret,
                ))
            &&& made matches Some(markup) ==> exists|ids: Seq<usize>| #[trigger]
                are_around(nodes, at->Some_0, caret, ids) && markup == closers(
                    text,
                    nodes,
                    ids.reverse(),
                ) + text_of(text, closing_tag(item).source) + without_id(text, opening_tag(item))
                    + openers(text, nodes, ids.reverse())
        }),
{
    let nodes = model.nodes@;
    law_item_at_a_place_is_the_innermost(model, caret);
    assert(nodes.len() == model.nodes.len());
    if let Some(at) = item_at(model, caret) {
        let item = nodes[at as int];
        assert(item.tags() is Some);
        let showing = exists|n: int|
            0 <= n < nodes.len() && lies_in(item, #[trigger] nodes[n]) && shows(text, nodes[n]);
        assert(shows_something(text, model, item) == showing) by {
            if shows_something(text, model, item) {
                let n = choose|n: int|
                    0 <= n < nodes.len() && in_content(item, #[trigger] nodes[n]) && meaningful(
                        text,
                        nodes[n],
                    );
                assert(lies_in(item, nodes[n]) && shows(text, nodes[n]));
            }
            if showing {
                let n = choose|n: int|
                    0 <= n < nodes.len() && lies_in(item, #[trigger] nodes[n]) && shows(
                        text,
                        nodes[n],
                    );
                assert(in_content(item, nodes[n]) && meaningful(text, nodes[n]));
            }
        }
        let prevented = exists|n: int|
            0 <= n < nodes.len() && n != at && in_content(item, #[trigger] nodes[n])
                && prevents_split(nodes[n], caret);
        let free = forall|n: int|
            0 <= n < nodes.len() && n != at ==> !keeps_whole(item, #[trigger] nodes[n], caret);
        assert(prevented == !free) by {
            if prevented {
                let n = choose|n: int|
                    0 <= n < nodes.len() && n != at && in_content(item, #[trigger] nodes[n])
                        && prevents_split(nodes[n], caret);
                assert(keeps_whole(item, nodes[n], caret));
            } else {
                assert forall|n: int| 0 <= n < nodes.len() && n != at implies !keeps_whole(
                    item,
                    #[trigger] nodes[n],
                    caret,
                ) by {
                    assert(in_content(item, nodes[n]) == lies_in(item, nodes[n]));
                }
            }
        }
        let ids = split_wrappers(model, at as int, caret, nodes.len() as int);
        lemma_around(model, at as int, caret, nodes.len() as int);
        assert(are_around(nodes, at, caret, ids));
        assert forall|k: int| 0 <= k < ids.len() implies nodes[(
        #[trigger] ids[k]) as int].tags() is Some by {
            assert(is_around(nodes[at as int], nodes[ids[k] as int], caret));
        }
        lemma_wrapper_tags(text, nodes, ids);
    }
}

/// A tag that is written once more is the tag without its `id`: the same text where it has
/// none, and else what stands before and behind the only one.
pub proof fn law_reopened_tag_drops_the_id(text: Seq<char>, tag: HtmlTag, place: int)
    requires
        tag_wf(text, tag),
        0 <= place <= tag.attributes@.len(),
        forall|k: int|
            0 <= k < tag.attributes@.len() ==> ((#[trigger] tag.attributes@[k]).name@ == "id"@
                <==> k == place),
    ensures
        without_id(text, tag) == (if place == tag.attributes@.len() {
            text_of(text, tag.source)
        } else {
            span(
                text,
                tag.source.start as int,
                tag.attributes@[place].source.start as int,
            ) + span(text, tag.attributes@[place].source.end as int, tag.source.end as int)
        }),
{
    let attributes = tag.attributes@;
    lemma_id_edits(attributes, place, attributes.len() as int);
    let edits = tag_edits(attributes, true, None, attributes.len() as int);
    let made = without_id(text, tag);
    if place < attributes.len() {
        assert(edits.drop_first() =~= Seq::<EditView>::empty());
        let gone = attributes[place].source;
        let before = span(text, tag.source.start as int, gone.start as int);
        let behind = span(text, gone.end as int, tag.source.end as int);
        assert(rewritten(text, gone.end as int, tag.source.end as int, edits.drop_first())
            == behind);
        assert(made =~= before + behind);
    }
}

proof fn lemma_id_edits(attributes: Seq<HtmlAttribute>, place: int, count: int)
    requires
        0 <= count <= attributes.len(),
        0 <= place <= attributes.len(),
        forall|k: int|
            0 <= k < attributes.len() ==> ((#[trigger] attributes[k]).name@ == "id"@ <==> k
                == place),
    ensures
        tag_edits(attributes, true, None, count) == (if place < count {
            seq![
                EditView {
                    start: attributes[place].source.start as int,
                    end: attributes[place].source.end as int,
                    text: Seq::empty(),
                },
            ]
        } else {
            Seq::<EditView>::empty()
        }),
    decreases count,
{
    if count > 0 {
        lemma_id_edits(attributes, place, count - 1);
        let edits = tag_edits(attributes, true, None, count);
        assert(attributes[count - 1].name@ == "id"@ <==> count - 1 == place);
        if place < count {
            let one = seq![
                EditView {
                    start: attributes[place].source.start as int,
                    end: attributes[place].source.end as int,
                    text: Seq::<char>::empty(),
                },
            ];
            assert(edits =~= one);
        }
    }
}

/// A list that goes on behind items that left it is opened by the same tag, with the number
/// it goes on with: in place of the value of its `start`, or in a `start` of its own at the
/// end of the tag. `place` is the only attribute that is a `start` with a value, if there is
/// one; no attribute is an `id` that has to go.
pub proof fn law_continued_list_counts_on(
    text: Seq<char>,
    tag: HtmlTag,
    remove_id: bool,
    number: Option<u64>,
    place: int,
)
    requires
        tag_wf(text, tag),
        0 <= place <= tag.attributes@.len(),
        forall|k: int|
            0 <= k < tag.attributes@.len() ==> ((#[trigger] tag.attributes@[k]).name@ == "start"@
                <==> k == place),
        forall|k: int|
            0 <= k < tag.attributes@.len() ==> !(remove_id && (
            #[trigger] tag.attributes@[k]).name@ == "id"@),
        place < tag.attributes@.len() ==> tag.attributes@[place].value is Some,
    ensures
        ({
            let made = continued_open(text, tag, remove_id, number);
            let start = tag.source.start as int;
            let end = tag.source.end - 1;
            match number {
                None => made == span(text, start, end) + seq!['>'],
                Some(n) => if place == tag.attributes@.len() {
                    made == span(text, start, end) + " start=\""@ + decimal(n as nat) + "\">"@
                } else {
                    let value = tag.attributes@[place].value->Some_0;
                    made == span(text, start, value.start as int) + decimal(n as nat) + span(
                        text,
                        value.end as int,
                        end,
                    ) + seq!['>']
                },
            }
        }),
{
    let attributes = tag.attributes@;
    let count = attributes.len() as int;
    lemma_start_edits(attributes, remove_id, number, place, count);
    let edits = tag_edits(attributes, remove_id, number, count);
    let made = continued_open(text, tag, remove_id, number);
    let start = tag.source.start as int;
    let end = tag.source.end - 1;
    reveal_strlit(">");
    reveal_strlit("\"");
    reveal_strlit("\">");
    assert(">"@ =~= seq!['>']);
    assert("\""@ + ">"@ =~= "\">"@);
    let has = has_attribute(tag, "start"@);
    if place < count {
        assert(attributes[place].name@ == "start"@);
        assert(has);
    } else if has {
        let k = choose|k: int|
            0 <= k < attributes.len() && (#[trigger] attributes[k]).name@ == "start"@;
        assert(k == place);
    }
    match number {
        None => {
            assert(made =~= span(text, start, end) + seq!['>']);
        },
        Some(n) => {
            if place == count {
                assert(made =~= span(text, start, end) + " start=\""@ + decimal(n as nat)
                    + "\">"@);
            } else {
                let value = attributes[place].value->Some_0;
                assert(edits.drop_first() =~= Seq::<EditView>::empty());
                assert(rewritten(text, value.end as int, end, edits.drop_first()) == span(
                    text,
                    value.end as int,
                    end,
                ));
                assert(made =~= span(text, start, value.start as int) + decimal(n as nat) + span(
                    text,
                    value.end as int,
                    end,
                ) + seq!['>']);
            }
        },
    }
}

proof fn lemma_start_edits(
    attributes: Seq<HtmlAttribute>,
    remove_id: bool,
    number: Option<u64>,
    place: int,
    count: int,
)
    requires
        0 <= count <= attributes.len(),
        0 <= place <= attributes.len(),
        forall|k: int|
            0 <= k < attributes.len() ==> ((#[trigger] attributes[k]).name@ == "start"@ <==> k
                == place),
        forall|k: int|
            0 <= k < attributes.len() ==> !(remove_id && (#[trigger] attributes[k]).name@
                == "id"@),
        place < attributes.len() ==> attributes[place].value is Some,
    ensures
        tag_edits(attributes, remove_id, number, count) == (match number {
            Some(n) if place < count => seq![
                EditView {
                    start: attributes[place].value->Some_0.start as int,
                    end: attributes[place].value->Some_0.end as int,
                    text: decimal(n as nat),
                },
            ],
            _ => Seq::<EditView>::empty(),
        }),
    decreases count,
{
    if count > 0 {
        lemma_start_edits(attributes, remove_id, number, place, count - 1);
        let edits = tag_edits(attributes, remove_id, number, count);
        assert(attributes[count - 1].name@ == "start"@ <==> count - 1 == place);
        assert(!(remove_id && attributes[count - 1].name@ == "id"@));
        if let Some(n) = number {
            if place < count {
                let one = seq![
                    EditView {
                        start: attributes[place].value->Some_0.start as int,
                        end: attributes[place].value->Some_0.end as int,
                        text: decimal(n as nat),
                    },
                ];
                assert(edits =~= one);
            }
        }
    }
}

/// Whether two plans end and begin with the tags of a list, `gap` apart, and `first` and
/// `second` are the plans without them.
pub open spec fn leaves_out(
    previous: ListPlanView,
    next: ListPlanView,
    gap: Seq<char>,
    before: Seq<char>,
    opening: Seq<char>,
    inner: Seq<char>,
    behind: Seq<char>,
    first: ListPlanView,
    second: ListPlanView,
) -> bool {
    let name = opening.subrange(1, 3);
    let closing = seq!['/'] + name + seq!['>'];
    &&& previous.text == before + opening
    &&& gap == seq!['>'] + inner + seq!['<']
    &&& next.text == closing + behind
    &&& first.text == before + inner
    &&& second.text == behind
    &&& opening.len() >= 3 && opening[0] == '<' && !opening.contains('>')
    &&& name == "ul"@ || name == "ol"@
    &&& opening.len() > 3 ==> opening[3] == ' '
    &&& first.caret == previous.caret && first.caret <= byte_len(before)
    &&& second.caret == next.caret - byte_len(closing) && second.caret >= 0
}

/// Joining two exits leaves out the empty list that they would leave between them, and
/// nothing else: what is written before the list's opening tag, what stands between the tags
/// and what is written behind its closing tag.
pub proof fn law_joined_exits_leave_out_an_empty_list(
    text: Seq<char>,
    previous: ListPlanView,
    next: ListPlanView,
    gaps: Seq<ParsedGap>,
)
    requires
        joined_exits(text, previous, next, gaps) is Some,
    ensures
        ({
            let (first, second) = joined_exits(text, previous, next, gaps)->Some_0;
            let gap = span(text, previous.range.end as int, next.range.start as int);
            &&& previous.range.end <= next.range.start
            &&& first.range.start == previous.range.start && first.range.end == next.range.start
            &&& second.range == next.range
            &&& exists|before: Seq<char>, opening: Seq<char>, inner: Seq<char>, behind: Seq<char>|
                #[trigger]
                leaves_out(previous, next, gap, before, opening, inner, behind, first, second)
        }),
{
    let (first, second) = joined_exits(text, previous, next, gaps)->Some_0;
    let gap = span(text, previous.range.end as int, next.range.start as int);
    let inner = gap.subrange(1, gap.len() - 1);
    let at = last_place(previous.text, '<')->Some_0;
    lemma_last_place(previous.text, '<');
    let before = previous.text.take(at);
    let opening = previous.text.skip(at);
    reveal_strlit("<ul");
    reveal_strlit("<ul ");
    reveal_strlit("<ol");
    reveal_strlit("<ol ");
    reveal_strlit("ul");
    reveal_strlit("ol");
    reveal_strlit("/");
    reveal_strlit(">");
    let listed = opened_list(opening)->Some_0;
    let name = opening.subrange(1, 3);
    assert(opening.len() >= 3 && opening[0] == '<' && name == listed && (opening.len() > 3
        ==> opening[3] == ' ')) by {
        if "<ul "@.is_prefix_of(opening) {
            assert("<ul "@ =~= opening.subrange(0, 4));
            assert forall|k: int| 0 <= k < 4 implies opening[k] == "<ul "@[k] by {
                assert(opening.subrange(0, 4)[k] == opening[k]);
            }
        }
        if "<ol "@.is_prefix_of(opening) {
            assert("<ol "@ =~= opening.subrange(0, 4));
            assert forall|k: int| 0 <= k < 4 implies opening[k] == "<ol "@[k] by {
                assert(opening.subrange(0, 4)[k] == opening[k]);
            }
        }
        assert(name =~= listed);
    }
    let closing = "/"@ + listed + ">"@;
    assert(closing =~= seq!['/'] + name + seq!['>']);
    let behind = next.text.skip(closing.len() as int);
    assert(closing =~= next.text.subrange(0, closing.len() as int));
    assert(next.text =~= closing + behind);
    assert(next.text == seq!['/'] + name + seq!['>'] + behind);
    assert(previous.text =~= before + opening);
    assert(gap =~= seq!['>'] + inner + seq!['<']);
    assert(first.text == before + inner);
    assert(leaves_out(previous, next, gap, before, opening, inner, behind, first, second));
}

/// Whether entry `k` of a chain is a list with an item of it, the first one `item`, and each
/// further item the one around the list before it.
pub open spec fn chain_climbs(
    nodes: Seq<HtmlNode>,
    item: usize,
    chain: Seq<(usize, usize)>,
    k: int,
) -> bool {
    &&& nodes[chain[k].1 as int].parent == Some(chain[k].0)
    &&& element_named(nodes[chain[k].0 as int], "ul"@) || element_named(
        nodes[chain[k].0 as int],
        "ol"@,
    )
    &&& chain[k].0 < chain[k].1
    &&& k == 0 ==> chain[k].1 == item
    &&& k > 0 ==> chain[k].1 < chain[k - 1].0 && exists|wrappers: Seq<usize>| #[trigger]
        leads_to_item(nodes, nodes[chain[k - 1].0 as int].parent, chain[k].1, wrappers)
}

/// The lists around an item are found from the inside out: its own list, then the list of
/// the item around that, and so on, each further out than the one before.
pub proof fn law_lists_are_found_from_the_inside_out(
    text: Seq<char>,
    model: HtmlModel,
    item: usize,
    k: int,
)
    requires
        model.wf(text),
        item < model.nodes@.len(),
        0 <= k < list_chain(model.nodes@, item).len(),
    ensures
        chain_climbs(model.nodes@, item, list_chain(model.nodes@, item), k),
    decreases item,
{
    let nodes = model.nodes@;
    let chain = list_chain(nodes, item);
    let list = nodes[item as int].parent->Some_0;
    assert(nodes[item as int].parent is Some && list < item);
    assert(chain[0] == (list, item));
    if k > 0 {
        let (parent, wrappers) = through_divs(nodes, nodes[list as int].parent)->Some_0;
        let rest = list_chain(nodes, parent);
        assert(chain =~= seq![(list, item)] + rest);
        assert(nodes[list as int].parent matches Some(p) ==> p < list);
        law_item_around_a_list(text, model, list as int, parent, wrappers);
        assert(list_parent(model, list as int) == Some((parent, wrappers)));
        lemma_leads_inward(text, model, nodes[list as int].parent, parent, wrappers, list as int);
        law_lists_are_found_from_the_inside_out(text, model, parent, k - 1);
        assert(chain[k] == rest[k - 1]);
        if k > 1 {
            assert(chain[k - 1] == rest[k - 2]);
        }
    }
}

proof fn lemma_leads_inward(
    text: Seq<char>,
    model: HtmlModel,
    from: Option<usize>,
    parent: usize,
    wrappers: Seq<usize>,
    bound: int,
)
    requires
        model.wf(text),
        bound <= model.nodes@.len(),
        from matches Some(p) ==> p < bound,
        leads_to_item(model.nodes@, from, parent, wrappers),
    ensures
        parent < bound,
    decreases wrappers.len(),
{
    if wrappers.len() > 0 {
        let next = model.nodes@[wrappers[0] as int].parent;
        assert(next matches Some(p) ==> p < wrappers[0]);
        lemma_leads_inward(text, model, next, parent, wrappers.drop_first(), bound);
    }
}

/// Whether the chains of two items meet first at entry `i` of the left one and `j` of the
/// right one.
pub open spec fn chains_meet(
    left: Seq<(usize, usize)>,
    right: Seq<(usize, usize)>,
    i: int,
    j: int,
) -> bool {
    &&& 0 <= i < left.len()
    &&& 0 <= j < right.len()
    &&& left[i].0 == right[j].0
    &&& forall|a: int, b: int|
        #![trigger left[a], right[b]]
        0 <= a < left.len() && 0 <= b < right.len() && left[a].0 == right[b].0 ==> i < a || (i == a
            && j <= b)
}

/// A selection spans items of the innermost list that is around both its ends, from the item
/// around its start to the item around its end. It spans none where no list is around both.
pub proof fn law_selection_spans_the_innermost_list(
    model: HtmlModel,
    start: int,
    end: int,
    a: usize,
    b: usize,
)
    requires
        item_at(model, start) == Some(a),
        item_at(model, end) == Some(b),
    ensures
        ({
            let left = list_chain(model.nodes@, a);
            let right = list_chain(model.nodes@, b);
            match selection_span(model, start, end) {
                Some(span_) => exists|i: int, j: int| #[trigger]
                    chains_meet(left, right, i, j) && span_.list == left[i].0 && span_.first
                        == left[i].1 && span_.last == right[j].1,
                None => in_markup(model, start) || in_markup(model, end) || (forall|i: int, j: int|
                    #[trigger] chains_meet(left, right, i, j) ==> model.nodes@[left[i].1 as int].source.start
                        > model.nodes@[right[j].1 as int].source.start),
            }
        }),
{
    let left = list_chain(model.nodes@, a);
    let right = list_chain(model.nodes@, b);
    lemma_shared_list(left, right);
}

proof fn lemma_chain_item(chain: Seq<(usize, usize)>, list: usize)
    ensures
        chain_item(chain, list) is Some ==> exists|j: int| #[trigger]
            first_entry(chain, list, chain_item(chain, list)->Some_0, j),
        chain_item(chain, list) is None ==> forall|j: int|
            0 <= j < chain.len() ==> (#[trigger] chain[j]).0 != list,
    decreases chain.len(),
{
    if chain.len() > 0 {
        if chain[0].0 == list {
            assert(first_entry(chain, list, chain_item(chain, list)->Some_0, 0));
        } else {
            let rest = chain.drop_first();
            lemma_chain_item(rest, list);
            let found = chain_item(rest, list);
            if found is Some {
                let j = choose|j: int| #[trigger] first_entry(rest, list, found->Some_0, j);
                assert(first_entry(rest, list, found->Some_0, j));
                assert forall|b: int| 0 <= b < j + 1 implies (#[trigger] chain[b]).0 != list by {
                    if b > 0 {
                        assert(chain[b] == rest[b - 1]);
                    }
                }
                assert(chain[j + 1] == rest[j]);
                assert(first_entry(chain, list, chain_item(chain, list)->Some_0, j + 1));
            } else {
                assert forall|j: int| 0 <= j < chain.len() implies (#[trigger] chain[j]).0
                    != list by {
                    if j > 0 {
                        assert(chain[j] == rest[j - 1]);
                    }
                }
            }
        }
    }
}

spec fn first_entry(chain: Seq<(usize, usize)>, list: usize, item: usize, j: int) -> bool {
    &&& 0 <= j < chain.len()
    &&& chain[j] == (list, item)
    &&& forall|b: int| 0 <= b < j ==> (#[trigger] chain[b]).0 != list
}

proof fn lemma_shared_list(left: Seq<(usize, usize)>, right: Seq<(usize, usize)>)
    ensures
        match shared_list(left, right) {
            Some(span_) => exists|i: int, j: int| #[trigger]
                chains_meet(left, right, i, j) && span_.list == left[i].0 && span_.first
                    == left[i].1 && span_.last == right[j].1,
            None => forall|i: int, j: int| !#[trigger] chains_meet(left, right, i, j),
        },
        forall|i: int, j: int, k: int, l: int|
            #[trigger] chains_meet(left, right, i, j) && #[trigger] chains_meet(left, right, k, l)
                ==> i == k && j == l,
    decreases left.len(),
{
    assert forall|i: int, j: int, k: int, l: int|
        #[trigger] chains_meet(left, right, i, j) && #[trigger] chains_meet(
            left,
            right,
            k,
            l,
        ) implies i == k && j == l by {
        assert(left[i].0 == right[j].0);
        assert(left[k].0 == right[l].0);
    }
    if left.len() > 0 {
        lemma_chain_item(right, left[0].0);
        match chain_item(right, left[0].0) {
            Some(last) => {
                let j = choose|j: int| #[trigger] first_entry(right, left[0].0, last, j);
                assert(chains_meet(left, right, 0, j)) by {
                    assert forall|a: int, b: int|
                        #![trigger left[a], right[b]]
                        0 <= a < left.len() && 0 <= b < right.len() && left[a].0
                            == right[b].0 implies 0 < a || (0 == a && j <= b) by {}
                }
            },
            None => {
                let rest = left.drop_first();
                lemma_shared_list(rest, right);
                match shared_list(rest, right) {
                    Some(span_) => {
                        let (i, j) = choose|i: int, j: int| #[trigger]
                            chains_meet(rest, right, i, j) && span_.list == rest[i].0
                                && span_.first == rest[i].1 && span_.last == right[j].1;
                        assert forall|a: int, b: int|
                            #![trigger left[a], right[b]]
                            0 <= a < left.len() && 0 <= b < right.len() && left[a].0
                                == right[b].0 implies i + 1 < a || (i + 1 == a && j <= b) by {
                            if a > 0 {
                                assert(left[a] == rest[a - 1]);
                            }
                        }
                        assert(left[i + 1] == rest[i]);
                        assert(chains_meet(left, right, i + 1, j));
                    },
                    None => {
                        assert forall|i: int, j: int| !#[trigger] chains_meet(
                            left,
                            right,
                            i,
                            j,
                        ) by {
                            if chains_meet(left, right, i, j) {
                                if i == 0 {
                                    assert(right[j].0 != left[0].0);
                                } else {
                                    assert forall|a: int, b: int|
                                        #![trigger rest[a], right[b]]
                                        0 <= a < rest.len() && 0 <= b < right.len() && rest[a].0
                                            == right[b].0 implies i - 1 < a || (i - 1 == a && j
                                        <= b) by {
                                        assert(left[a + 1] == rest[a]);
                                    }
                                    assert(left[i] == rest[i - 1]);
                                    assert(chains_meet(rest, right, i - 1, j));
                                }
                            }
                        }
                    },
                }
            },
        }
    }
}

} // verus!
