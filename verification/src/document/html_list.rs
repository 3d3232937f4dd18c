//! Lists inside HTML regions: leaving, indenting and splitting items.
//!
//! A plan replaces one source range and says where the caret stands in the
//! replacement. Bytes of the list are moved, never written anew.
use crate::edit::{edit_views, edits_within, ordered_edits, rewrite, rewritten, Edit, EditView};
use crate::grid::SourceSpan;
use crate::html::{
    attribute_wf, is_paragraph_name, paragraph_name, span_in, tag_wf, HtmlAttribute, HtmlModel,
    HtmlNode, HtmlNodeKind, HtmlTag,
};
use crate::text::{
    boundary, byte_len, chars_of, decimal, is_white_space, lemma_boundary_bounds,
    lemma_encode_concat, lemma_span_bytes, push_decimal, same_text, slice, sliceable, span,
    text_len, white_space,
};
use vstd::prelude::*;
use vstd::string::*;
use vstd::utf8::*;

verus! {

/// A replacement, with the caret's place in it.
#[derive(Debug)]
pub struct ListPlan {
    pub range: SourceSpan,
    pub text: String,
    pub caret: usize,
}

/// What a [`ListPlan`] says.
pub struct ListPlanView {
    pub range: SourceSpan,
    pub text: Seq<char>,
    pub caret: int,
}

impl View for ListPlan {
    type V = ListPlanView;

    open spec fn view(&self) -> ListPlanView {
        ListPlanView { range: self.range, text: self.text@, caret: self.caret as int }
    }
}

/// The model of an optional plan.
pub open spec fn plan_view(plan: Option<ListPlan>) -> Option<ListPlanView> {
    match plan {
        Some(plan) => Some(plan@),
        None => None,
    }
}

/// Whether `text` holds nothing but white space.
pub open spec fn blank(text: Seq<char>) -> bool {
    forall|i: int| 0 <= i < text.len() ==> white_space(#[trigger] text[i])
}

/// Whether `text` holds nothing but white space.
pub fn is_blank(text: &str) -> (r: bool)
    ensures
        r == blank(text@),
{
    let chars = chars_of(text);
    let mut i: usize = 0;
    while i < chars.len()
        invariant
            chars@ == text@,
            i <= chars@.len(),
            forall|k: int| 0 <= k < i ==> white_space(#[trigger] text@[k]),
        decreases chars@.len() - i,
    {
        if !is_white_space(chars[i]) {
            assert(!white_space(text@[i as int]));
            return false;
        }
        i += 1;
    }
    true
}

/// The bytes of a tag or node.
pub open spec fn source_of(text: Seq<char>, source: SourceSpan) -> Seq<char> {
    span(text, source.start as int, source.end as int)
}

/// The opening and the closing tag of an element that has both.
pub fn element_tags(node: &HtmlNode) -> (r: Option<(&HtmlTag, &HtmlTag)>)
    ensures
        match r {
            Some((opening, closing)) => node.tags() == Some((*opening, *closing)),
            None => node.tags() is None,
        },
{
    match &node.kind {
        HtmlNodeKind::Element { opening, closing: Some(closing) } => Some((opening, closing)),
        _ => None,
    }
}

/// Whether a node is a closed element of the given name.
pub open spec fn named(node: HtmlNode, name: Seq<char>) -> bool {
    node.tags() matches Some((opening, _)) && opening.name@ == name
}

/// Whether a node is a closed list item.
pub open spec fn is_item(node: HtmlNode) -> bool {
    named(node, "li"@)
}

/// Whether a node is a closed element of the given name.
pub fn is_named(node: &HtmlNode, name: &str) -> (r: bool)
    ensures
        r == named(*node, name@),
{
    match element_tags(node) {
        Some((opening, _)) => same_text(opening.name.as_str(), name),
        None => false,
    }
}

/// The list items among the first `count` of `children`.
pub open spec fn items_of(nodes: Seq<HtmlNode>, children: Seq<usize>, count: int) -> Seq<usize>
    decreases count,
{
    if count <= 0 {
        Seq::empty()
    } else {
        let before = items_of(nodes, children, count - 1);
        let child = children[count - 1];
        if is_item(nodes[child as int]) {
            before.push(child)
        } else {
            before
        }
    }
}

/// The items of list `list`.
pub open spec fn list_items(model: HtmlModel, list: int) -> Seq<usize> {
    let children = model.nodes@[list].children@;
    items_of(model.nodes@, children, children.len() as int)
}

/// Whether `item` is an item of list `list`.
pub open spec fn item_in(nodes: Seq<HtmlNode>, list: int, item: usize) -> bool {
    &&& item < nodes.len()
    &&& is_item(nodes[item as int])
    &&& nodes[item as int].parent matches Some(p) && p == list
    &&& nodes[list].encloses(nodes[item as int].source)
}

pub proof fn lemma_items_of(text: Seq<char>, model: HtmlModel, list: int, count: int)
    requires
        model.wf(text),
        0 <= list < model.nodes@.len(),
        0 <= count <= model.nodes@[list].children@.len(),
    ensures
        ({
            let nodes = model.nodes@;
            let children = nodes[list].children@;
            let items = items_of(nodes, children, count);
            &&& items.len() <= count
            &&& forall|k: int| 0 <= k < items.len() ==> item_in(nodes, list, #[trigger] items[k])
            &&& forall|k: int|
                0 <= k < items.len() && count < children.len() ==> nodes[(
                #[trigger] items[k]) as int].source.end <= nodes[children[count] as int].source.start
            &&& forall|j: int, k: int|
                #![trigger items[j], items[k]]
                0 <= j < k < items.len() ==> nodes[items[j] as int].source.end
                    <= nodes[items[k] as int].source.start
        }),
    decreases count,
{
    let nodes = model.nodes@;
    if count > 0 {
        let children = nodes[list].children@;
        let items = items_of(nodes, children, count);
        let before = items_of(nodes, children, count - 1);
        lemma_items_of(text, model, list, count - 1);
        let child = children[count - 1];
        assert(child < nodes.len());
        assert(nodes[child as int].wf(text));
        assert(nodes[list].encloses(nodes[child as int].source));
        if count < children.len() {
            assert(nodes[children[count - 1] as int].source.end
                <= nodes[children[count] as int].source.start);
        }
        assert forall|k: int| 0 <= k < items.len() implies item_in(nodes, list, #[trigger] items[k])
            && (count < children.len() ==> nodes[items[k] as int].source.end
            <= nodes[children[count] as int].source.start) by {
            if k < before.len() {
                assert(items[k] == before[k]);
            }
        }
        assert forall|j: int, k: int|
            #![trigger items[j], items[k]]
            0 <= j < k < items.len() implies nodes[items[j] as int].source.end
            <= nodes[items[k] as int].source.start by {
            assert(items[j] == before[j]);
            if k < before.len() {
                assert(items[k] == before[k]);
            }
        }
    }
}

/// The items of list `list`.
pub(crate) fn collect_items(text: Ghost<Seq<char>>, model: &HtmlModel, list: usize) -> (r: Vec<usize>)
    requires
        model.wf(text@),
        list < model.nodes@.len(),
    ensures
        r@ == list_items(*model, list as int),
        forall|k: int| 0 <= k < r@.len() ==> item_in(model.nodes@, list as int, #[trigger] r@[k]),
        forall|j: int, k: int|
            #![trigger r@[j], r@[k]]
            0 <= j < k < r@.len() ==> model.nodes@[r@[j] as int].source.end
                <= model.nodes@[r@[k] as int].source.start,
{
    let children = &model.nodes[list].children;
    let mut items: Vec<usize> = Vec::new();
    let mut i: usize = 0;
    while i < children.len()
        invariant
            model.wf(text@),
            list < model.nodes@.len(),
            *children == model.nodes@[list as int].children,
            i <= children@.len(),
            items@ == items_of(model.nodes@, children@, i as int),
        decreases children@.len() - i,
    {
        let child = children[i];
        assert(model.nodes@[list as int].children@[i as int] < model.nodes@.len());
        if is_named(&model.nodes[child], "li") {
            items.push(child);
        }
        i += 1;
    }
    proof {
        lemma_items_of(text@, *model, list as int, children@.len() as int);
    }
    items
}

/// Where `wanted` first stands in `items`.
pub open spec fn place_of(items: Seq<usize>, wanted: usize) -> Option<int>
    decreases items.len(),
{
    if items.len() == 0 {
        None
    } else {
        match place_of(items.drop_last(), wanted) {
            Some(at) => Some(at),
            None => if items.last() == wanted {
                Some(items.len() - 1)
            } else {
                None
            },
        }
    }
}

pub(crate) fn find_place(items: &Vec<usize>, wanted: usize) -> (r: Option<usize>)
    ensures
        match r {
            Some(at) => place_of(items@, wanted) == Some(at as int) && at < items@.len()
                && items@[at as int] == wanted,
            None => place_of(items@, wanted) is None,
        },
{
    let mut i: usize = 0;
    while i < items.len()
        invariant
            i <= items@.len(),
            place_of(items@.take(i as int), wanted) is None,
        decreases items@.len() - i,
    {
        assert(items@.take(i + 1).drop_last() =~= items@.take(i as int));
        assert(items@.take(i + 1).last() == items@[i as int]);
        if items[i] == wanted {
            proof {
                lemma_place_stays(items@, i + 1, wanted);
            }
            return Some(i);
        }
        i += 1;
    }
    assert(items@.take(i as int) =~= items@);
    None
}

proof fn lemma_place_stays(items: Seq<usize>, count: int, wanted: usize)
    requires
        0 <= count <= items.len(),
        place_of(items.take(count), wanted) is Some,
    ensures
        place_of(items, wanted) == place_of(items.take(count), wanted),
    decreases items.len() - count,
{
    if count == items.len() {
        assert(items.take(count) =~= items);
    } else {
        assert(items.take(count + 1).drop_last() =~= items.take(count));
        lemma_place_stays(items, count + 1, wanted);
    }
}

/// Whether `at` lies in the content of a closed element: not before the end of
/// its opening tag, and not behind the start of its closing tag.
pub open spec fn content_holds(node: HtmlNode, at: int) -> bool {
    node.tags() matches Some((opening, closing)) && opening.source.end <= at <= closing.source.start
}

/// The length of a node's source.
pub open spec fn node_len(node: HtmlNode) -> int {
    node.source.end - node.source.start
}

/// The shortest item among the first `count` nodes whose content holds `at`.
pub open spec fn innermost_item(nodes: Seq<HtmlNode>, at: int, count: int) -> Option<usize>
    decreases count,
{
    if count <= 0 {
        None
    } else {
        let before = innermost_item(nodes, at, count - 1);
        let node = nodes[count - 1];
        if is_item(node) && content_holds(node, at) && (before matches Some(best) ==> node_len(node)
            < node_len(nodes[best as int])) {
            Some((count - 1) as usize)
        } else {
            before
        }
    }
}

/// The innermost item whose content holds `at`.
pub open spec fn item_at(model: HtmlModel, at: int) -> Option<usize> {
    innermost_item(model.nodes@, at, model.nodes@.len() as int)
}

pub(crate) fn holds_caret(node: &HtmlNode, at: usize) -> (r: bool)
    ensures
        r == content_holds(*node, at as int),
{
    match element_tags(node) {
        Some((opening, closing)) => opening.source.end <= at && at <= closing.source.start,
        None => false,
    }
}

pub(crate) fn find_item(text: Ghost<Seq<char>>, model: &HtmlModel, at: usize) -> (r: Option<usize>)
    requires
        model.wf(text@),
    ensures
        r == item_at(*model, at as int),
        r matches Some(id) ==> id < model.nodes@.len() && is_item(model.nodes@[id as int])
            && content_holds(model.nodes@[id as int], at as int),
{
    let mut best: Option<usize> = None;
    let mut i: usize = 0;
    while i < model.nodes.len()
        invariant
            model.wf(text@),
            i <= model.nodes@.len(),
            best == innermost_item(model.nodes@, at as int, i as int),
            best matches Some(id) ==> id < i && is_item(model.nodes@[id as int]) && content_holds(
                model.nodes@[id as int],
                at as int,
            ),
        decreases model.nodes@.len() - i,
    {
        let node = &model.nodes[i];
        assert(model.nodes@[i as int].wf(text@));
        if is_named(node, "li") && holds_caret(node, at) {
            match best {
                Some(id) => {
                    assert(model.nodes@[id as int].wf(text@));
                    let other = &model.nodes[id];
                    if node.source.end - node.source.start < other.source.end - other.source.start {
                        best = Some(i);
                    }
                },
                None => {
                    best = Some(i);
                },
            }
        }
        i += 1;
    }
    best
}

/// The item around a node and the transparent wrappers between them, from the
/// inside out. Nothing but `div` elements may stand in between.
pub open spec fn through_divs(nodes: Seq<HtmlNode>, parent: Option<usize>) -> Option<
    (usize, Seq<usize>),
>
    decreases
            match parent {
                Some(id) => id + 1,
                None => 0,
            },
{
    match parent {
        None => None,
        Some(id) => if named(nodes[id as int], "li"@) {
            Some((id, Seq::empty()))
        } else if named(nodes[id as int], "div"@) && (nodes[id as int].parent matches Some(up) && up
            < id) {
            match through_divs(nodes, nodes[id as int].parent) {
                Some((item, wrappers)) => Some((item, seq![id] + wrappers)),
                None => None,
            }
        } else {
            None
        },
    }
}

/// The item around list `list`, and the wrappers in between.
pub open spec fn list_parent(model: HtmlModel, list: int) -> Option<(usize, Seq<usize>)> {
    through_divs(model.nodes@, model.nodes@[list].parent)
}

/// Everything on the way out encloses `inner`, and each wrapper the one before.
pub open spec fn chain_encloses(
    nodes: Seq<HtmlNode>,
    inner: SourceSpan,
    item: usize,
    wrappers: Seq<usize>,
) -> bool {
    &&& item < nodes.len()
    &&& is_item(nodes[item as int])
    &&& nodes[item as int].encloses(inner)
    &&& forall|k: int|
        0 <= k < wrappers.len() ==> {
            let id = #[trigger] wrappers[k];
            id < nodes.len() && nodes[id as int].tags() is Some
        }
}

proof fn lemma_through_divs(text: Seq<char>, model: HtmlModel, child: int, inner: SourceSpan)
    requires
        model.wf(text),
        0 <= child < model.nodes@.len(),
        span_in(model.nodes@[child].source, inner),
    ensures
        through_divs(model.nodes@, model.nodes@[child].parent) matches Some((item, wrappers))
            ==> chain_encloses(model.nodes@, inner, item, wrappers),
    decreases child,
{
    let nodes = model.nodes@;
    assert(nodes[child].wf(text));
    if let Some(id) = nodes[child].parent {
        assert(nodes[id as int].encloses(nodes[child].source));
        assert(nodes[id as int].wf(text));
        if named(nodes[id as int], "div"@) && !named(nodes[id as int], "li"@) {
            lemma_through_divs(text, model, id as int, inner);
            if let Some((item, wrappers)) = through_divs(nodes, nodes[child].parent) {
                let rest = through_divs(nodes, nodes[id as int].parent)->Some_0.1;
                assert forall|k: int| 0 <= k < wrappers.len() implies ({
                    let w = #[trigger] wrappers[k];
                    w < nodes.len() && nodes[w as int].tags() is Some
                }) by {
                    if k > 0 {
                        assert(wrappers[k] == rest[k - 1]);
                    }
                }
            }
        }
    }
}

pub(crate) fn list_parent_through_divs(text: Ghost<Seq<char>>, model: &HtmlModel, list: usize) -> (r: Option<
    (usize, Vec<usize>),
>)
    requires
        model.wf(text@),
        list < model.nodes@.len(),
    ensures
        match r {
            Some((item, wrappers)) => list_parent(*model, list as int) == Some((item, wrappers@))
                && chain_encloses(
                model.nodes@,
                model.nodes@[list as int].source,
                item,
                wrappers@,
            ),
            None => list_parent(*model, list as int) is None,
        },
{
    let mut wrappers: Vec<usize> = Vec::new();
    let mut current: usize = list;
    let ghost whole = list_parent(*model, list as int);
    proof {
        lemma_through_divs(
            text@,
            *model,
            list as int,
            model.nodes@[list as int].source,
        );
        if let Some((item, rest)) = whole {
            assert(wrappers@ + rest =~= rest);
        }
    }
    loop
        invariant
            model.wf(text@),
            current < model.nodes@.len(),
            whole == list_parent(*model, list as int),
            whole matches Some((item, rest)) ==> chain_encloses(
                model.nodes@,
                model.nodes@[list as int].source,
                item,
                rest,
            ),
            match through_divs(model.nodes@, model.nodes@[current as int].parent) {
                Some((item, rest)) => whole == Some((item, wrappers@ + rest)),
                None => whole is None,
            },
        decreases current,
    {
        let id = match model.nodes[current].parent {
            Some(id) => id,
            None => {
                return None;
            },
        };
        assert(model.nodes@[current as int].parent matches Some(p) ==> p < current);
        if is_named(&model.nodes[id], "li") {
            assert(wrappers@ + Seq::<usize>::empty() =~= wrappers@);
            return Some((id, wrappers));
        }
        if !is_named(&model.nodes[id], "div") {
            return None;
        }
        let ghost before = wrappers@;
        proof {
            assert(model.nodes@[id as int].parent matches Some(p) ==> p < id);
            if let Some((item, rest)) = through_divs(
                model.nodes@,
                model.nodes@[id as int].parent,
            ) {
                assert(before + (seq![id] + rest) =~= before.push(id) + rest);
            }
        }
        wrappers.push(id);
        current = id;
    }
}

/// The change to one attribute of a reopened tag: an `id` goes away where the
/// tag is a second one, and the number of a continued list is put in place.
pub open spec fn attribute_edit(attribute: HtmlAttribute, remove_id: bool, number: Option<u64>)
    -> Option<EditView> {
    if remove_id && attribute.name@ == "id"@ {
        Some(
            EditView {
                start: attribute.source.start as int,
                end: attribute.source.end as int,
                text: Seq::empty(),
            },
        )
    } else if attribute.name@ == "start"@ {
        match (number, attribute.value) {
            (Some(number), Some(value)) => Some(
                EditView {
                    start: value.start as int,
                    end: value.end as int,
                    text: decimal(number as nat),
                },
            ),
            _ => None,
        }
    } else {
        None
    }
}

/// The changes to the first `count` attributes of a reopened tag.
pub open spec fn tag_edits(
    attributes: Seq<HtmlAttribute>,
    remove_id: bool,
    number: Option<u64>,
    count: int,
) -> Seq<EditView>
    decreases count,
{
    if count <= 0 {
        Seq::empty()
    } else {
        let before = tag_edits(attributes, remove_id, number, count - 1);
        match attribute_edit(attributes[count - 1], remove_id, number) {
            Some(edit) => before.push(edit),
            None => before,
        }
    }
}

/// An opening tag written once more, without its `id`.
pub open spec fn without_id(text: Seq<char>, tag: HtmlTag) -> Seq<char> {
    rewritten(
        text,
        tag.source.start as int,
        tag.source.end as int,
        tag_edits(tag.attributes@, true, None, tag.attributes@.len() as int),
    )
}

/// Whether the tag has an attribute of the given name.
pub open spec fn has_attribute(tag: HtmlTag, name: Seq<char>) -> bool {
    exists|i: int|
        0 <= i < tag.attributes@.len() && (#[trigger] tag.attributes@[i]).name@ == name
}

/// The opening tag of the rest of a split list, which counts on from `number`.
pub open spec fn continued_open(
    text: Seq<char>,
    tag: HtmlTag,
    remove_id: bool,
    number: Option<u64>,
) -> Seq<char> {
    rewritten(
        text,
        tag.source.start as int,
        tag.source.end - 1,
        tag_edits(tag.attributes@, remove_id, number, tag.attributes@.len() as int),
    ) + (match number {
        Some(number) if !has_attribute(tag, "start"@) => " start=\""@ + decimal(number as nat)
            + "\""@,
        _ => Seq::empty(),
    }) + ">"@
}

proof fn lemma_tag_edits(
    text: Seq<char>,
    tag: HtmlTag,
    remove_id: bool,
    number: Option<u64>,
    count: int,
)
    requires
        tag_wf(text, tag),
        0 <= count <= tag.attributes@.len(),
    ensures
        ({
            let edits = tag_edits(tag.attributes@, remove_id, number, count);
            let end = if count == 0 {
                tag.source.start as int
            } else {
                tag.attributes@[count - 1].source.end as int
            };
            &&& ordered_edits(text, edits)
            &&& edits_within(edits, tag.source.start as int, end)
        }),
    decreases count,
{
    if count > 0 {
        lemma_tag_edits(text, tag, remove_id, number, count - 1);
        let before = tag_edits(tag.attributes@, remove_id, number, count - 1);
        let edits = tag_edits(tag.attributes@, remove_id, number, count);
        let attribute = tag.attributes@[count - 1];
        assert(attribute_wf(text, tag.source, attribute));
        if count > 1 {
            assert(tag.attributes@[count - 2].source.end <= attribute.source.start);
        }
        assert forall|i: int| 0 <= i < edits.len() implies sliceable(
            text,
            (#[trigger] edits[i]).start,
            edits[i].end,
        ) && tag.source.start <= edits[i].start && edits[i].end <= attribute.source.end by {
            if i < before.len() {
                assert(edits[i] == before[i]);
            }
        }
        assert forall|i: int, j: int|
            #![trigger edits[i], edits[j]]
            0 <= i < j < edits.len() implies edits[i].end <= edits[j].start by {
            assert(edits[i] == before[i]);
            if j < before.len() {
                assert(edits[j] == before[j]);
            }
        }
    }
}

fn collect_tag_edits(source: &str, tag: &HtmlTag, remove_id: bool, number: Option<u64>) -> (r: Vec<
    Edit,
>)
    requires
        tag_wf(source@, *tag),
    ensures
        edit_views(r@) == tag_edits(
            tag.attributes@,
            remove_id,
            number,
            tag.attributes@.len() as int,
        ),
        ordered_edits(source@, edit_views(r@)),
        edits_within(edit_views(r@), tag.source.start as int, tag.source.end - 1),
{
    let mut edits: Vec<Edit> = Vec::new();
    let mut i: usize = 0;
    assert(edit_views(edits@) =~= Seq::empty());
    while i < tag.attributes.len()
        invariant
            i <= tag.attributes@.len(),
            edit_views(edits@) == tag_edits(tag.attributes@, remove_id, number, i as int),
        decreases tag.attributes@.len() - i,
    {
        let attribute = &tag.attributes[i];
        let ghost before = edits@;
        if remove_id && same_text(attribute.name.as_str(), "id") {
            let edit = Edit::replace(attribute.source.start, attribute.source.end, String::new());
            edits.push(edit);
            assert(edit@.text =~= Seq::empty());
            assert(edit_views(edits@) =~= edit_views(before).push(edit@));
        } else if same_text(attribute.name.as_str(), "start") {
            if let (Some(number), Some(value)) = (number, attribute.value) {
                let mut text = String::new();
                push_decimal(&mut text, number);
                assert(text@ =~= decimal(number as nat));
                let edit = Edit::replace(value.start, value.end, text);
                edits.push(edit);
                assert(edit_views(edits@) =~= edit_views(before).push(edit@));
            }
        }
        i += 1;
    }
    proof {
        lemma_tag_edits(source@, *tag, remove_id, number, tag.attributes@.len() as int);
        if tag.attributes@.len() > 0 {
            assert(attribute_wf(
                source@,
                tag.source,
                tag.attributes@[tag.attributes@.len() - 1],
            ));
        }
    }
    edits
}

/// Writes an opening tag once more, without its `id`.
pub(crate) fn opening_without_id(source: &str, tag: &HtmlTag) -> (r: String)
    requires
        tag_wf(source@, *tag),
    ensures
        r@ == without_id(source@, *tag),
{
    let edits = collect_tag_edits(source, tag, true, None);
    rewrite(source, tag.source.start, tag.source.end, &edits)
}

fn tag_has_attribute(tag: &HtmlTag, name: &str) -> (r: bool)
    ensures
        r == has_attribute(*tag, name@),
{
    let mut i: usize = 0;
    while i < tag.attributes.len()
        invariant
            i <= tag.attributes@.len(),
            forall|k: int| 0 <= k < i ==> (#[trigger] tag.attributes@[k]).name@ != name@,
        decreases tag.attributes@.len() - i,
    {
        if same_text(tag.attributes[i].name.as_str(), name) {
            assert(tag.attributes@[i as int].name@ == name@);
            return true;
        }
        i += 1;
    }
    false
}

proof fn lemma_tag_bracket(text: Seq<char>, tag: HtmlTag)
    requires
        tag_wf(text, tag),
    ensures
        boundary(text, tag.source.end - 1),
{
    let bytes = encode_utf8(text);
    lemma_boundary_bounds(text, tag.source.end as int);
    encode_utf8_valid_utf8(text);
    is_char_boundary_iff_not_is_continuation_byte(bytes, tag.source.end - 1);
}

/// Writes the opening tag of the rest of a split list.
pub(crate) fn continued_list_open(source: &str, tag: &HtmlTag, remove_id: bool, number: Option<u64>) -> (r:
    String)
    requires
        tag_wf(source@, *tag),
    ensures
        r@ == continued_open(source@, *tag, remove_id, number),
{
    let edits = collect_tag_edits(source, tag, remove_id, number);
    proof {
        lemma_tag_bracket(source@, *tag);
    }
    let mut made = rewrite(source, tag.source.start, tag.source.end - 1, &edits);
    let mut added = String::new();
    if let Some(number) = number {
        if !tag_has_attribute(tag, "start") {
            added.push_str(" start=\"");
            push_decimal(&mut added, number);
            added.push_str("\"");
        }
    }
    assert(added@ =~= (match number {
        Some(number) if !has_attribute(*tag, "start"@) => " start=\""@ + decimal(number as nat)
            + "\""@,
        _ => Seq::empty(),
    }));
    made.push_str(added.as_str());
    made.push_str(">");
    made
}

/// The opening tag of an item that becomes another element: the attributes stay.
pub open spec fn renamed_open(text: Seq<char>, tag: HtmlTag, name: Seq<char>) -> Seq<char> {
    let start = tag.source.start as int;
    span(text, start, start + 1) + name + span(
        text,
        start + 1 + byte_len(tag.name@),
        tag.source.end as int,
    )
}

pub(crate) fn rename_open(source: &str, tag: &HtmlTag, name: &str) -> (r: String)
    requires
        tag_wf(source@, *tag),
    ensures
        r@ == renamed_open(source@, *tag, name@),
{
    let start = tag.source.start;
    let length = text_len(tag.name.as_str());
    let mut made = slice(source, start, start + 1).to_owned();
    made.push_str(name);
    made.push_str(slice(source, start + 1 + length, tag.source.end));
    made
}

/// The number that the part of an ordered list behind its first `count` items
/// starts with. An unordered list has none.
pub open spec fn continued_number(list: HtmlNode, count: int) -> Option<u64> {
    if named(list, "ol"@) {
        let first: int = match list.start {
            Some(start) => start as int,
            None => 1,
        };
        Some(
            if first + count > u64::MAX {
                u64::MAX
            } else {
                (first + count) as u64
            },
        )
    } else {
        None
    }
}

pub(crate) fn number_after(list: &HtmlNode, count: usize) -> (r: Option<u64>)
    ensures
        r == continued_number(*list, count as int),
{
    if !is_named(list, "ol") {
        return None;
    }
    let first: u64 = match list.start {
        Some(start) => start,
        None => 1,
    };
    Some(first.saturating_add(count as u64))
}

/// Whether an element's name is that of a list.
pub open spec fn list_name(name: Seq<char>) -> bool {
    name == "ul"@ || name == "ol"@
}

pub(crate) fn is_list_name(name: &str) -> (r: bool)
    ensures
        r == list_name(name@),
{
    same_text(name, "ul") || same_text(name, "ol")
}

/// Whether an element of this name is a block of its own.
pub open spec fn block_name(name: Seq<char>) -> bool {
    paragraph_name(name) || list_name(name) || name == "div"@ || name == "details"@
}

pub(crate) fn is_block_name(name: &str) -> (r: bool)
    ensures
        r == block_name(name@),
{
    is_paragraph_name(name) || is_list_name(name) || same_text(name, "div") || same_text(
        name,
        "details",
    )
}

/// Whether an element of this name makes an item more than empty.
pub open spec fn object_name(name: Seq<char>) -> bool {
    list_name(name) || name == "img"@ || name == "details"@
}

pub(crate) fn is_object_name(name: &str) -> (r: bool)
    ensures
        r == object_name(name@),
{
    is_list_name(name) || same_text(name, "img") || same_text(name, "details")
}

/// Whether `at` lies strictly inside `source`.
pub open spec fn splits(source: SourceSpan, at: int) -> bool {
    source.start < at < source.end
}

/// Whether `at` lies strictly inside one of the element's tags.
pub open spec fn splits_tag(opening: HtmlTag, closing: Option<HtmlTag>, at: int) -> bool {
    splits(opening.source, at) || (closing matches Some(tag) && splits(tag.source, at))
}

pub(crate) fn cuts_tag(opening: &HtmlTag, closing: &Option<HtmlTag>, at: usize) -> (r: bool)
    ensures
        r == splits_tag(*opening, *closing, at as int),
{
    if opening.source.start < at && at < opening.source.end {
        return true;
    }
    match closing {
        Some(tag) => tag.source.start < at && at < tag.source.end,
        None => false,
    }
}

/// What stays of a list before the item at `at`: closed if it has items, else
/// only what stood between its opening tag and that item.
pub open spec fn split_left(text: Seq<char>, list: HtmlNode, at: int, keep: bool) -> Seq<char> {
    let (open, close) = list.tags()->0;
    let between = span(text, open.source.end as int, at);
    if keep {
        source_of(text, open.source) + between + source_of(text, close.source)
    } else {
        between
    }
}

/// What stays of a list behind its first `count` items, from `at` on: reopened
/// if it has items, else only what stood before its closing tag.
pub open spec fn split_right(
    text: Seq<char>,
    list: HtmlNode,
    at: int,
    keep: bool,
    has_left: bool,
    count: int,
) -> Seq<char> {
    let (open, close) = list.tags()->0;
    let between = span(text, at, close.source.start as int);
    if keep {
        continued_open(text, open, has_left, continued_number(list, count)) + between + source_of(
            text,
            close.source,
        )
    } else {
        between
    }
}

pub(crate) fn left_of_item(source: &str, list: &HtmlNode, at: usize, keep: bool) -> (r: String)
    requires
        list.wf(source@),
        list.tags() is Some,
        list.encloses(SourceSpan { start: at, end: at }),
        boundary(source@, at as int),
    ensures
        r@ == split_left(source@, *list, at as int, keep),
{
    let mut made = String::new();
    if let Some((open, close)) = element_tags(list) {
        if keep {
            made.push_str(slice(source, open.source.start, open.source.end));
        }
        made.push_str(slice(source, open.source.end, at));
        if keep {
            made.push_str(slice(source, close.source.start, close.source.end));
        }
    }
    assert(made@ =~= split_left(source@, *list, at as int, keep));
    made
}

pub(crate) fn right_of_item(
    source: &str,
    list: &HtmlNode,
    at: usize,
    keep: bool,
    has_left: bool,
    count: usize,
) -> (r: String)
    requires
        list.wf(source@),
        list.tags() is Some,
        list.encloses(SourceSpan { start: at, end: at }),
        boundary(source@, at as int),
    ensures
        r@ == split_right(source@, *list, at as int, keep, has_left, count as int),
{
    let mut made = String::new();
    if let Some((open, close)) = element_tags(list) {
        if keep {
            let number = number_after(list, count);
            let reopened = continued_list_open(source, open, has_left, number);
            made.push_str(reopened.as_str());
        }
        made.push_str(slice(source, at, close.source.start));
        if keep {
            made.push_str(slice(source, close.source.start, close.source.end));
        }
    }
    assert(made@ =~= split_right(source@, *list, at as int, keep, has_left, count as int));
    made
}

/// The closing tags of `wrappers`, from the inside out.
pub open spec fn closings_of(text: Seq<char>, nodes: Seq<HtmlNode>, wrappers: Seq<usize>) -> Seq<char>
    decreases wrappers.len(),
{
    if wrappers.len() == 0 {
        Seq::empty()
    } else {
        let (_, close) = nodes[wrappers.last() as int].tags()->0;
        closings_of(text, nodes, wrappers.drop_last()) + source_of(text, close.source)
    }
}

/// The opening tags of `wrappers` once more, from the outside in.
pub open spec fn reopenings_of(text: Seq<char>, nodes: Seq<HtmlNode>, wrappers: Seq<usize>) -> Seq<
    char,
>
    decreases wrappers.len(),
{
    if wrappers.len() == 0 {
        Seq::empty()
    } else {
        let (open, _) = nodes[wrappers.last() as int].tags()->0;
        without_id(text, open) + reopenings_of(text, nodes, wrappers.drop_last())
    }
}

fn close_wrappers(source: &str, model: &HtmlModel, wrappers: &Vec<usize>) -> (r: String)
    requires
        model.wf(source@),
        forall|k: int|
            0 <= k < wrappers@.len() ==> {
                let id = #[trigger] wrappers@[k];
                id < model.nodes@.len() && model.nodes@[id as int].tags() is Some
            },
    ensures
        r@ == closings_of(source@, model.nodes@, wrappers@),
{
    let mut made = String::new();
    let mut i: usize = 0;
    assert(wrappers@.take(0) =~= Seq::empty());
    while i < wrappers.len()
        invariant
            model.wf(source@),
            forall|k: int|
                0 <= k < wrappers@.len() ==> {
                    let id = #[trigger] wrappers@[k];
                    id < model.nodes@.len() && model.nodes@[id as int].tags() is Some
                },
            i <= wrappers@.len(),
            made@ == closings_of(source@, model.nodes@, wrappers@.take(i as int)),
        decreases wrappers@.len() - i,
    {
        let id = wrappers[i];
        assert(wrappers@.take(i + 1).drop_last() =~= wrappers@.take(i as int));
        assert(wrappers@.take(i + 1).last() == id);
        assert(model.nodes@[id as int].wf(source@));
        if let Some((_, close)) = element_tags(&model.nodes[id]) {
            made.push_str(slice(source, close.source.start, close.source.end));
        }
        i += 1;
    }
    assert(wrappers@.take(i as int) =~= wrappers@);
    made
}

fn reopen_wrappers(source: &str, model: &HtmlModel, wrappers: &Vec<usize>) -> (r: String)
    requires
        model.wf(source@),
        forall|k: int|
            0 <= k < wrappers@.len() ==> {
                let id = #[trigger] wrappers@[k];
                id < model.nodes@.len() && model.nodes@[id as int].tags() is Some
            },
    ensures
        r@ == reopenings_of(source@, model.nodes@, wrappers@),
{
    let mut made = String::new();
    let mut i: usize = wrappers.len();
    assert(wrappers@.take(i as int) =~= wrappers@);
    assert(made@ + reopenings_of(source@, model.nodes@, wrappers@) =~= reopenings_of(
        source@,
        model.nodes@,
        wrappers@,
    ));
    while i > 0
        invariant
            model.wf(source@),
            forall|k: int|
                0 <= k < wrappers@.len() ==> {
                    let id = #[trigger] wrappers@[k];
                    id < model.nodes@.len() && model.nodes@[id as int].tags() is Some
                },
            i <= wrappers@.len(),
            made@ + reopenings_of(source@, model.nodes@, wrappers@.take(i as int))
                == reopenings_of(source@, model.nodes@, wrappers@),
        decreases i,
    {
        let id = wrappers[i - 1];
        let ghost before = made@;
        assert(wrappers@.take(i as int).drop_last() =~= wrappers@.take(i - 1));
        assert(wrappers@.take(i as int).last() == id);
        assert(model.nodes@[id as int].wf(source@));
        if let Some((open, _)) = element_tags(&model.nodes[id]) {
            let reopened = opening_without_id(source, open);
            made.push_str(reopened.as_str());
        }
        assert(made@ + reopenings_of(source@, model.nodes@, wrappers@.take(i - 1)) =~= before
            + reopenings_of(source@, model.nodes@, wrappers@.take(i as int)));
        i -= 1;
    }
    assert(wrappers@.take(0) =~= Seq::empty());
    assert(made@ + Seq::<char>::empty() =~= made@);
    made
}

/// What precedes items `first` to `last` of a nested list once they have left
/// it: the parent item, closed behind what stays before them.
pub open spec fn nested_head(
    text: Seq<char>,
    model: HtmlModel,
    list: int,
    first: int,
    place: int,
    parent: usize,
    wrappers: Seq<usize>,
) -> Seq<char> {
    let nodes = model.nodes@;
    let (_, parent_close) = nodes[parent as int].tags()->0;
    span(text, nodes[parent as int].source.start as int, nodes[list].source.start as int)
        + split_left(text, nodes[list], nodes[first].source.start as int, place > 0) + closings_of(
        text,
        nodes,
        wrappers,
    ) + source_of(text, parent_close.source)
}

/// Items `first` to `last`, which stand at places `a` to `b` of `list`, after
/// they have become siblings of the item around the list. What follows them in
/// the parent item goes into the last of them.
pub open spec fn nested_outdent(
    text: Seq<char>,
    model: HtmlModel,
    list: int,
    first: int,
    last: int,
    a: int,
    b: int,
    parent: usize,
    wrappers: Seq<usize>,
) -> Seq<char> {
    let nodes = model.nodes@;
    let items = list_items(model, list);
    let (_, parent_close) = nodes[parent as int].tags()->0;
    let (_, last_close) = nodes[last].tags()->0;
    nested_head(text, model, list, first, a, parent, wrappers) + span(
        text,
        nodes[first].source.start as int,
        last_close.source.start as int,
    ) + reopenings_of(text, nodes, wrappers) + split_right(
        text,
        nodes[list],
        nodes[last].source.end as int,
        b + 1 < items.len(),
        a > 0,
        b + 1,
    ) + span(text, nodes[list].source.end as int, parent_close.source.start as int) + source_of(
        text,
        last_close.source,
    )
}

/// The plan that moves items `first` to `last` of a nested list one level out,
/// with the caret at source offset `at` of them.
pub open spec fn nested_plan(
    text: Seq<char>,
    model: HtmlModel,
    list: int,
    first: int,
    last: int,
    a: int,
    b: int,
    parent: usize,
    wrappers: Seq<usize>,
    at: int,
) -> ListPlanView {
    ListPlanView {
        range: model.nodes@[parent as int].source,
        text: nested_outdent(text, model, list, first, last, a, b, parent, wrappers),
        caret: byte_len(nested_head(text, model, list, first, a, parent, wrappers)) + at
            - model.nodes@[first].source.start,
    }
}

pub(crate) fn plan_nested(
    source: &str,
    model: &HtmlModel,
    list: usize,
    first: usize,
    last: usize,
    a: usize,
    b: usize,
    items: usize,
    parent: usize,
    wrappers: &Vec<usize>,
    at: usize,
) -> (r: ListPlan)
    requires
        model.wf(source@),
        list < model.nodes@.len(),
        model.nodes@[list as int].tags() is Some,
        item_in(model.nodes@, list as int, first),
        item_in(model.nodes@, list as int, last),
        items == list_items(*model, list as int).len(),
        b < items,
        chain_encloses(
            model.nodes@,
            model.nodes@[list as int].source,
            parent,
            wrappers@,
        ),
        model.nodes@[first as int].source.start <= model.nodes@[last as int].source.start,
        model.nodes@[first as int].source.start <= at,
        model.nodes@[last as int].tags() matches Some((_, close)) && at <= close.source.start,
    ensures
        r@ == nested_plan(
            source@,
            *model,
            list as int,
            first as int,
            last as int,
            a as int,
            b as int,
            parent,
            wrappers@,
            at as int,
        ),
{
    let first_node = &model.nodes[first];
    let last_node = &model.nodes[last];
    let list_node = &model.nodes[list];
    let parent_node = &model.nodes[parent];
    proof {
        assert(model.nodes@[first as int].wf(source@));
        assert(model.nodes@[last as int].wf(source@));
        assert(model.nodes@[list as int].wf(source@));
        assert(model.nodes@[parent as int].wf(source@));
    }
    let mut text = String::new();
    let mut caret: usize = 0;
    if let (Some((_, parent_close)), Some((_, last_close))) = (
        element_tags(parent_node),
        element_tags(last_node),
    ) {
        text.push_str(slice(source, parent_node.source.start, list_node.source.start));
        let left = left_of_item(source, list_node, first_node.source.start, a > 0);
        text.push_str(left.as_str());
        let closings = close_wrappers(source, model, wrappers);
        text.push_str(closings.as_str());
        text.push_str(slice(source, parent_close.source.start, parent_close.source.end));
        let ghost head = nested_head(
            source@,
            *model,
            list as int,
            first as int,
            a as int,
            parent,
            wrappers@,
        );
        assert(text@ =~= head);
        let before = text_len(text.as_str());
        let moved = slice(source, first_node.source.start, last_close.source.start);
        text.push_str(moved);
        let after = text_len(text.as_str());
        proof {
            lemma_encode_concat(head, moved@);
            lemma_span_bytes(
                source@,
                first_node.source.start as int,
                last_close.source.start as int,
            );
        }
        caret = before + (at - first_node.source.start);
        let reopened = reopen_wrappers(source, model, wrappers);
        text.push_str(reopened.as_str());
        let right = right_of_item(
            source,
            list_node,
            last_node.source.end,
            b + 1 < items,
            a > 0,
            b + 1,
        );
        text.push_str(right.as_str());
        text.push_str(slice(source, list_node.source.end, parent_close.source.start));
        text.push_str(slice(source, last_close.source.start, last_close.source.end));
    }
    ListPlan { range: parent_node.source, text, caret }
}

/// Whether `node` lies in the content of the closed element `item`.
pub open spec fn in_content(item: HtmlNode, node: HtmlNode) -> bool {
    item.tags() matches Some((open, close)) && open.source.end <= node.source.start
        && node.source.end <= close.source.start
}

pub(crate) fn is_in_content(open: &HtmlTag, close: &HtmlTag, node: &HtmlNode) -> (r: bool)
    ensures
        r == (open.source.end <= node.source.start && node.source.end <= close.source.start),
{
    open.source.end <= node.source.start && node.source.end <= close.source.start
}

/// Whether a node in an item's content keeps the item from being left at
/// `caret`: the caret stands inside markup, or the item is to be empty and is not.
pub open spec fn prevents_exit(text: Seq<char>, node: HtmlNode, caret: int, require_empty: bool)
    -> bool {
    match node.kind {
        HtmlNodeKind::Text => require_empty && !blank(source_of(text, node.source)),
        HtmlNodeKind::Comment => splits(node.source, caret),
        HtmlNodeKind::Element { opening, closing } => (require_empty && object_name(opening.name@))
            || splits_tag(opening, closing, caret),
    }
}

/// Whether some node keeps the item from being left.
pub open spec fn exit_prevented(
    text: Seq<char>,
    model: HtmlModel,
    item: HtmlNode,
    caret: int,
    require_empty: bool,
) -> bool {
    exists|n: int|
        0 <= n < model.nodes@.len() && in_content(item, #[trigger] model.nodes@[n])
            && prevents_exit(text, model.nodes@[n], caret, require_empty)
}

/// Whether an item holds a block element.
pub open spec fn holds_block(model: HtmlModel, item: HtmlNode) -> bool {
    exists|n: int|
        0 <= n < model.nodes@.len() && in_content(item, #[trigger] model.nodes@[n]) && (
        model.nodes@[n].kind matches HtmlNodeKind::Element { opening, .. } && block_name(
            opening.name@,
        ))
}

/// Whether an item holds a paragraph or a heading.
pub open spec fn holds_paragraph(model: HtmlModel, item: HtmlNode) -> bool {
    exists|n: int|
        0 <= n < model.nodes@.len() && in_content(item, #[trigger] model.nodes@[n]) && (
        model.nodes@[n].kind matches HtmlNodeKind::Element { opening, .. } && paragraph_name(
            opening.name@,
        ))
}

/// Whether a table lies around `at`.
pub open spec fn in_table(model: HtmlModel, at: int) -> bool {
    exists|n: int|
        0 <= n < model.nodes@.len() && named(#[trigger] model.nodes@[n], "table"@)
            && model.nodes@[n].source.start <= at <= model.nodes@[n].source.end
}

/// Whether a table lies around `at`.
pub fn is_in_table(model: &HtmlModel, at: usize) -> (r: bool)
    ensures
        r == in_table(*model, at as int),
{
    let mut n: usize = 0;
    while n < model.nodes.len()
        invariant
            n <= model.nodes@.len(),
            forall|k: int|
                0 <= k < n ==> !(named(#[trigger] model.nodes@[k], "table"@)
                    && model.nodes@[k].source.start <= at <= model.nodes@[k].source.end),
        decreases model.nodes@.len() - n,
    {
        let node = &model.nodes[n];
        if is_named(node, "table") && node.source.start <= at && at <= node.source.end {
            assert(named(model.nodes@[n as int], "table"@));
            return true;
        }
        n += 1;
    }
    false
}

/// The element that an item of an outermost list becomes.
pub open spec fn exit_wrapper(block: bool) -> Seq<char> {
    if block {
        "div"@
    } else {
        "p"@
    }
}

/// What opens the element that replaces the item, if one is needed: inside a
/// table a block body needs none unless the item has attributes.
pub open spec fn exit_open(text: Seq<char>, item: HtmlNode, block: bool, wrap: bool) -> Seq<char> {
    let (open, _) = item.tags()->0;
    if wrap {
        renamed_open(text, open, exit_wrapper(block))
    } else {
        Seq::empty()
    }
}

/// What closes the element that replaces the item.
pub open spec fn exit_close(block: bool, wrap: bool) -> Seq<char> {
    if wrap {
        "</"@ + exit_wrapper(block) + ">"@
    } else {
        Seq::empty()
    }
}

/// The content of an item.
pub open spec fn item_body(text: Seq<char>, item: HtmlNode) -> Seq<char> {
    let (open, close) = item.tags()->0;
    span(text, open.source.end as int, close.source.start as int)
}

/// The plan that takes the item at `place` out of an outermost list. An empty
/// item without a paragraph gets one to hold the caret.
pub open spec fn root_plan(
    text: Seq<char>,
    model: HtmlModel,
    list: int,
    item: int,
    place: int,
    caret: int,
    require_empty: bool,
) -> ListPlanView {
    let nodes = model.nodes@;
    let (open, _) = nodes[item].tags()->0;
    let items = list_items(model, list);
    let block = holds_block(model, nodes[item]);
    let wrap = !block || open.attributes@.len() > 0 || !in_table(model, caret);
    let added = require_empty && block && !holds_paragraph(model, nodes[item]);
    let left = split_left(text, nodes[list], nodes[item].source.start as int, place > 0);
    let right = split_right(
        text,
        nodes[list],
        nodes[item].source.end as int,
        place + 1 < items.len(),
        place > 0,
        place + 1,
    );
    let head = left + exit_open(text, nodes[item], block, wrap);
    let body = item_body(text, nodes[item]);
    ListPlanView {
        range: nodes[list].source,
        text: head + body + (if added {
            "<p>"@ + "</p>"@
        } else {
            Seq::empty()
        }) + exit_close(block, wrap) + right,
        caret: if added {
            byte_len(head + body + "<p>"@)
        } else {
            byte_len(head) + caret - open.source.end
        },
    }
}

/// The plan that takes the innermost item around `caret` one level out, if it
/// can be left there.
pub open spec fn outdent_at(
    text: Seq<char>,
    model: HtmlModel,
    caret: int,
    require_empty: bool,
) -> Option<ListPlanView> {
    match item_at(model, caret) {
        None => None,
        Some(item) => match model.nodes@[item as int].parent {
            None => None,
            Some(list) => {
                let node = model.nodes@[list as int];
                match (node.tags(), place_of(list_items(model, list as int), item)) {
                    (Some((open, _)), Some(place)) => if !list_name(open.name@) || exit_prevented(
                        text,
                        model,
                        model.nodes@[item as int],
                        caret,
                        require_empty,
                    ) {
                        None
                    } else {
                        match list_parent(model, list as int) {
                            Some((parent, wrappers)) => Some(
                                nested_plan(
                                    text,
                                    model,
                                    list as int,
                                    item as int,
                                    item as int,
                                    place,
                                    place,
                                    parent,
                                    wrappers,
                                    caret,
                                ),
                            ),
                            None => Some(
                                root_plan(
                                    text,
                                    model,
                                    list as int,
                                    item as int,
                                    place,
                                    caret,
                                    require_empty,
                                ),
                            ),
                        }
                    },
                    _ => None,
                }
            },
        },
    }
}

/// What the content of an item is made of.
struct ItemBody {
    prevented: bool,
    block: bool,
    paragraph: bool,
}

fn inspect_body(source: &str, model: &HtmlModel, item: usize, caret: usize, require_empty: bool)
    -> (r: ItemBody)
    requires
        model.wf(source@),
        item < model.nodes@.len(),
        model.nodes@[item as int].tags() is Some,
    ensures
        r.prevented == exit_prevented(
            source@,
            *model,
            model.nodes@[item as int],
            caret as int,
            require_empty,
        ),
        r.block == holds_block(*model, model.nodes@[item as int]),
        r.paragraph == holds_paragraph(*model, model.nodes@[item as int]),
{
    let mut body = ItemBody { prevented: false, block: false, paragraph: false };
    let ghost whole = model.nodes@[item as int];
    let mut n: usize = 0;
    if let Some((open, close)) = element_tags(&model.nodes[item]) {
        while n < model.nodes.len()
            invariant
                model.wf(source@),
                whole == model.nodes@[item as int],
                whole.tags() == Some((*open, *close)),
                n <= model.nodes@.len(),
                body.prevented <==> exists|k: int|
                    0 <= k < n && in_content(whole, #[trigger] model.nodes@[k]) && prevents_exit(
                        source@,
                        model.nodes@[k],
                        caret as int,
                        require_empty,
                    ),
                body.block <==> exists|k: int|
                    0 <= k < n && in_content(whole, #[trigger] model.nodes@[k]) && (
                    model.nodes@[k].kind matches HtmlNodeKind::Element { opening, .. }
                        && block_name(opening.name@)),
                body.paragraph <==> exists|k: int|
                    0 <= k < n && in_content(whole, #[trigger] model.nodes@[k]) && (
                    model.nodes@[k].kind matches HtmlNodeKind::Element { opening, .. }
                        && paragraph_name(opening.name@)),
            decreases model.nodes@.len() - n,
        {
            let node = &model.nodes[n];
            assert(model.nodes@[n as int].wf(source@));
            if is_in_content(open, close, node) {
                assert(in_content(whole, model.nodes@[n as int]));
                match &node.kind {
                    HtmlNodeKind::Text => {
                        if require_empty && !is_blank(
                            slice(source, node.source.start, node.source.end),
                        ) {
                            body.prevented = true;
                        }
                    },
                    HtmlNodeKind::Comment => {
                        if node.source.start < caret && caret < node.source.end {
                            body.prevented = true;
                        }
                    },
                    HtmlNodeKind::Element { opening, closing } => {
                        let name = opening.name.as_str();
                        if (require_empty && is_object_name(name)) || cuts_tag(
                            opening,
                            closing,
                            caret,
                        ) {
                            body.prevented = true;
                        }
                        if is_block_name(name) {
                            body.block = true;
                        }
                        if is_paragraph_name(name) {
                            body.paragraph = true;
                        }
                    },
                }
            }
            n += 1;
        }
    }
    body
}

fn plan_root(
    source: &str,
    model: &HtmlModel,
    list: usize,
    item: usize,
    place: usize,
    items: usize,
    caret: usize,
    require_empty: bool,
    body: ItemBody,
) -> (r: ListPlan)
    requires
        model.wf(source@),
        list < model.nodes@.len(),
        model.nodes@[list as int].tags() is Some,
        item_in(model.nodes@, list as int, item),
        content_holds(model.nodes@[item as int], caret as int),
        items == list_items(*model, list as int).len(),
        place < items,
        body.block == holds_block(*model, model.nodes@[item as int]),
        body.paragraph == holds_paragraph(*model, model.nodes@[item as int]),
    ensures
        r@ == root_plan(
            source@,
            *model,
            list as int,
            item as int,
            place as int,
            caret as int,
            require_empty,
        ),
{
    let item_node = &model.nodes[item];
    let list_node = &model.nodes[list];
    proof {
        assert(model.nodes@[item as int].wf(source@));
        assert(model.nodes@[list as int].wf(source@));
    }
    let left = left_of_item(source, list_node, item_node.source.start, place > 0);
    let right = right_of_item(
        source,
        list_node,
        item_node.source.end,
        place + 1 < items,
        place > 0,
        place + 1,
    );
    let mut text = left;
    let mut target: usize = 0;
    if let Some((open, close)) = element_tags(item_node) {
        let wrapper = if body.block {
            "div"
        } else {
            "p"
        };
        let wrap = !body.block || open.attributes.len() > 0 || !is_in_table(model, caret);
        if wrap {
            let opening = rename_open(source, open, wrapper);
            text.push_str(opening.as_str());
        }
        let ghost head = text@;
        assert(head =~= left@ + exit_open(source@, *item_node, body.block, wrap));
        let before = text_len(text.as_str());
        let content = slice(source, open.source.end, close.source.start);
        text.push_str(content);
        let after = text_len(text.as_str());
        proof {
            lemma_encode_concat(head, content@);
            lemma_span_bytes(source@, open.source.end as int, close.source.start as int);
        }
        target = before + (caret - open.source.end);
        let ghost mut added: Seq<char> = Seq::empty();
        if require_empty && body.block && !body.paragraph {
            text.push_str("<p>");
            target = text_len(text.as_str());
            text.push_str("</p>");
            proof {
                added = "<p>"@ + "</p>"@;
            }
        }
        assert(text@ =~= head + content@ + added);
        let ghost opened = text@;
        if wrap {
            text.push_str("</");
            text.push_str(wrapper);
            text.push_str(">");
        }
        assert(text@ =~= opened + exit_close(body.block, wrap));
        text.push_str(right.as_str());
    }
    ListPlan { range: list_node.source, text, caret: target }
}

/// Plans to take the innermost item around `caret` one level out: out of a
/// nested list into the list around it, out of an outermost list into a
/// paragraph. With `require_empty`, only an item that shows nothing is left.
pub fn html_list_outdent_at(source: &str, model: &HtmlModel, caret: usize, require_empty: bool)
    -> (r: Option<ListPlan>)
    requires
        model.wf(source@),
    ensures
        plan_view(r) == outdent_at(source@, *model, caret as int, require_empty),
{
    let ghost text = source@;
    let item = find_item(Ghost(text), model, caret)?;
    let list = model.nodes[item].parent?;
    proof {
        assert(model.nodes@[item as int].parent matches Some(p) ==> p < item);
        assert(model.nodes@[list as int].encloses(model.nodes@[item as int].source));
        assert(model.nodes@[item as int].wf(source@));
        assert(model.nodes@[list as int].wf(source@));
    }
    let list_node = &model.nodes[list];
    let name = match element_tags(list_node) {
        Some((open, _)) => open.name.as_str(),
        None => {
            return None;
        },
    };
    if !is_list_name(name) {
        return None;
    }
    let body = inspect_body(source, model, item, caret, require_empty);
    let items = collect_items(Ghost(text), model, list);
    let place = find_place(&items, item)?;
    if body.prevented {
        return None;
    }
    match list_parent_through_divs(Ghost(text), model, list) {
        Some((parent, wrappers)) => Some(
            plan_nested(
                source,
                model,
                list,
                item,
                item,
                place,
                place,
                items.len(),
                parent,
                &wrappers,
                caret,
            ),
        ),
        None => Some(
            plan_root(source, model, list, item, place, items.len(), caret, require_empty, body),
        ),
    }
}

/// The items that a selection spans: from `first` to `last` of `list`.
#[derive(Clone, Copy, Debug, PartialEq, Eq, Structural)]
pub struct ListSpan {
    pub list: usize,
    pub first: usize,
    pub last: usize,
}

/// Whether `at` lies strictly inside a tag or a comment.
pub open spec fn in_markup(model: HtmlModel, at: int) -> bool {
    exists|n: int|
        0 <= n < model.nodes@.len() && markup_splits(#[trigger] model.nodes@[n], at)
}

/// Whether `at` lies strictly inside a node's own markup.
pub open spec fn markup_splits(node: HtmlNode, at: int) -> bool {
    match node.kind {
        HtmlNodeKind::Text => false,
        HtmlNodeKind::Comment => splits(node.source, at),
        HtmlNodeKind::Element { opening, closing } => splits_tag(opening, closing, at),
    }
}

pub(crate) fn is_in_markup(model: &HtmlModel, at: usize) -> (r: bool)
    ensures
        r == in_markup(*model, at as int),
{
    let mut n: usize = 0;
    while n < model.nodes.len()
        invariant
            n <= model.nodes@.len(),
            forall|k: int| 0 <= k < n ==> !markup_splits(#[trigger] model.nodes@[k], at as int),
        decreases model.nodes@.len() - n,
    {
        let node = &model.nodes[n];
        let inside = match &node.kind {
            HtmlNodeKind::Text => false,
            HtmlNodeKind::Comment => node.source.start < at && at < node.source.end,
            HtmlNodeKind::Element { opening, closing } => cuts_tag(opening, closing, at),
        };
        if inside {
            assert(markup_splits(model.nodes@[n as int], at as int));
            return true;
        }
        n += 1;
    }
    false
}

/// The lists around `item` with the item of each that holds it, from the inside
/// out, as far as nothing but `div` elements stands in between.
pub open spec fn list_chain(nodes: Seq<HtmlNode>, item: usize) -> Seq<(usize, usize)>
    decreases item,
{
    match nodes[item as int].parent {
        Some(list) if list < item && (nodes[list as int].tags() matches Some((open, _))
            && list_name(open.name@)) && nodes[item as int].resolved
            && nodes[list as int].resolved => {
            seq![(list, item)] + (match through_divs(nodes, nodes[list as int].parent) {
                Some((parent, _)) if parent < item => list_chain(nodes, parent),
                _ => Seq::empty(),
            })
        },
        _ => Seq::empty(),
    }
}

/// Whether every entry is a list with one of its items, whose content holds `at`.
pub open spec fn chain_wf(nodes: Seq<HtmlNode>, chain: Seq<(usize, usize)>, at: int) -> bool {
    forall|k: int|
        0 <= k < chain.len() ==> {
            let (list, item) = #[trigger] chain[k];
            &&& list < nodes.len()
            &&& nodes[list as int].tags() matches Some((open, _)) && list_name(open.name@)
            &&& item_in(nodes, list as int, item)
            &&& content_holds(nodes[item as int], at)
        }
}

fn collect_chain(text: Ghost<Seq<char>>, model: &HtmlModel, item: usize, at: usize) -> (r: Vec<
    (usize, usize),
>)
    requires
        model.wf(text@),
        item < model.nodes@.len(),
        is_item(model.nodes@[item as int]),
        content_holds(model.nodes@[item as int], at as int),
    ensures
        r@ == list_chain(model.nodes@, item),
        chain_wf(model.nodes@, r@, at as int),
{
    let mut chain: Vec<(usize, usize)> = Vec::new();
    let mut current: usize = item;
    let ghost nodes = model.nodes@;
    assert(chain@ + list_chain(nodes, item) =~= list_chain(nodes, item));
    loop
        invariant
            nodes == model.nodes@,
            model.wf(text@),
            current < nodes.len(),
            is_item(nodes[current as int]),
            content_holds(nodes[current as int], at as int),
            chain@ + list_chain(nodes, current) == list_chain(nodes, item),
            chain_wf(nodes, chain@, at as int),
        decreases current,
    {
        assert(nodes[current as int].wf(text@));
        let list = match model.nodes[current].parent {
            Some(list) => list,
            None => {
                assert(chain@ + Seq::<(usize, usize)>::empty() =~= chain@);
                return chain;
            },
        };
        proof {
            assert(nodes[current as int].parent matches Some(p) ==> p < current);
            assert(nodes[list as int].encloses(nodes[current as int].source));
            assert(nodes[list as int].wf(text@));
        }
        let is_list = match element_tags(&model.nodes[list]) {
            Some((open, _)) => is_list_name(open.name.as_str()),
            None => false,
        };
        if !is_list || !model.nodes[current].resolved || !model.nodes[list].resolved {
            assert(chain@ + Seq::<(usize, usize)>::empty() =~= chain@);
            return chain;
        }
        let ghost before = chain@;
        chain.push((list, current));
        match list_parent_through_divs(text, model, list) {
            None => {
                assert(chain@ =~= before + list_chain(nodes, current));
                return chain;
            },
            Some((parent, _)) => {
                proof {
                    lemma_through_smaller(nodes, nodes[list as int].parent, list as int);
                    assert(before + list_chain(nodes, current) =~= chain@ + list_chain(
                        nodes,
                        parent,
                    ));
                    assert(nodes[parent as int].wf(text@));
                }
                current = parent;
            },
        }
    }
}

proof fn lemma_through_smaller(nodes: Seq<HtmlNode>, parent: Option<usize>, bound: int)
    requires
        parent matches Some(id) ==> id < bound,
    ensures
        through_divs(nodes, parent) matches Some((item, _)) ==> item < bound,
    decreases
            match parent {
                Some(id) => id + 1,
                None => 0,
            },
{
    if let Some(id) = parent {
        if named(nodes[id as int], "div"@) && !named(nodes[id as int], "li"@) {
            if let Some(up) = nodes[id as int].parent {
                if up < id {
                    lemma_through_smaller(nodes, Some(up), bound);
                }
            }
        }
    }
}

/// The item of the first entry for `list`.
pub open spec fn chain_item(chain: Seq<(usize, usize)>, list: usize) -> Option<usize>
    decreases chain.len(),
{
    if chain.len() == 0 {
        None
    } else if chain[0].0 == list {
        Some(chain[0].1)
    } else {
        chain_item(chain.drop_first(), list)
    }
}

/// The innermost list that both chains share, with the item of each.
pub open spec fn shared_list(left: Seq<(usize, usize)>, right: Seq<(usize, usize)>) -> Option<
    ListSpan,
>
    decreases left.len(),
{
    if left.len() == 0 {
        None
    } else {
        match chain_item(right, left[0].0) {
            Some(last) => Some(ListSpan { list: left[0].0, first: left[0].1, last }),
            None => shared_list(left.drop_first(), right),
        }
    }
}

/// The items that the range from `start` to `end` spans: those of the innermost
/// list that both ends share.
pub open spec fn selection_span(model: HtmlModel, start: int, end: int) -> Option<ListSpan> {
    if in_markup(model, start) || in_markup(model, end) {
        None
    } else {
        match (item_at(model, start), item_at(model, end)) {
            (Some(a), Some(b)) => match shared_list(
                list_chain(model.nodes@, a),
                list_chain(model.nodes@, b),
            ) {
                Some(span) if model.nodes@[span.first as int].source.start
                    <= model.nodes@[span.last as int].source.start => Some(span),
                _ => None,
            },
            _ => None,
        }
    }
}

/// Whether a span names items of one list, in order, around `start` and `end`.
pub open spec fn span_ok(model: HtmlModel, span: ListSpan, start: int, end: int) -> bool {
    let nodes = model.nodes@;
    &&& span.list < nodes.len()
    &&& nodes[span.list as int].tags() matches Some((open, _)) && list_name(open.name@)
    &&& item_in(nodes, span.list as int, span.first)
    &&& item_in(nodes, span.list as int, span.last)
    &&& content_holds(nodes[span.first as int], start)
    &&& content_holds(nodes[span.last as int], end)
    &&& nodes[span.first as int].source.start <= nodes[span.last as int].source.start
}

fn find_chain_item(chain: &Vec<(usize, usize)>, list: usize) -> (r: Option<usize>)
    ensures
        r == chain_item(chain@, list),
        r matches Some(item) ==> chain@.contains((list, item)),
{
    let mut i: usize = 0;
    assert(chain@.skip(0) =~= chain@);
    while i < chain.len()
        invariant
            i <= chain@.len(),
            chain_item(chain@.skip(i as int), list) == chain_item(chain@, list),
        decreases chain@.len() - i,
    {
        assert(chain@.skip(i as int)[0] == chain@[i as int]);
        assert(chain@.skip(i as int).drop_first() =~= chain@.skip(i + 1));
        if chain[i].0 == list {
            assert(chain@[i as int] == (list, chain@[i as int].1));
            return Some(chain[i].1);
        }
        i += 1;
    }
    None
}

/// Finds the items that the range from `start` to `end` spans.
pub fn list_selection_span(source: &str, model: &HtmlModel, start: usize, end: usize) -> (r: Option<
    ListSpan,
>)
    requires
        model.wf(source@),
    ensures
        r == selection_span(*model, start as int, end as int),
        r matches Some(span) ==> span_ok(*model, span, start as int, end as int),
{
    let ghost text = source@;
    if is_in_markup(model, start) || is_in_markup(model, end) {
        return None;
    }
    let a = find_item(Ghost(text), model, start)?;
    let b = find_item(Ghost(text), model, end)?;
    let left = collect_chain(Ghost(text), model, a, start);
    let right = collect_chain(Ghost(text), model, b, end);
    let mut i: usize = 0;
    assert(left@.skip(0) =~= left@);
    while i < left.len()
        invariant
            i <= left@.len(),
            chain_wf(model.nodes@, left@, start as int),
            chain_wf(model.nodes@, right@, end as int),
            shared_list(left@.skip(i as int), right@) == shared_list(left@, right@),
            !in_markup(*model, start as int),
            !in_markup(*model, end as int),
            item_at(*model, start as int) == Some(a),
            item_at(*model, end as int) == Some(b),
            left@ == list_chain(model.nodes@, a),
            right@ == list_chain(model.nodes@, b),
        decreases left@.len() - i,
    {
        assert(left@.skip(i as int)[0] == left@[i as int]);
        assert(left@.skip(i as int).drop_first() =~= left@.skip(i + 1));
        let (list, first) = left[i];
        if let Some(last) = find_chain_item(&right, list) {
            let found = ListSpan { list, first, last };
            proof {
                let k = choose|k: int| 0 <= k < right@.len() && right@[k] == (list, last);
                assert(right@[k] == (list, last));
                assert(left@[i as int] == (list, first));
            }
            if model.nodes[first].source.start > model.nodes[last].source.start {
                return None;
            }
            return Some(found);
        }
        i += 1;
    }
    None
}

/// Whether lists can be edited at `at`: inside a table if the table was
/// recognized, elsewhere if the fragment was understood.
pub open spec fn editable_at(model: HtmlModel, at: int, table_recognized: bool) -> bool {
    if in_table(model, at) {
        table_recognized
    } else {
        model.understood
    }
}

/// Whether lists can be edited at `at`.
pub fn native_list_model(model: &HtmlModel, at: usize, table_recognized: bool) -> (r: bool)
    ensures
        r == editable_at(*model, at as int, table_recognized),
{
    if is_in_table(model, at) {
        table_recognized
    } else {
        model.understood
    }
}

/// The innermost item around an offset is an item, and its content holds the
/// offset.
pub proof fn lemma_item_at(model: HtmlModel, at: int, count: int)
    requires
        0 <= count <= model.nodes@.len(),
    ensures
        innermost_item(model.nodes@, at, count) matches Some(id) ==> id < count && is_item(
            model.nodes@[id as int],
        ) && content_holds(model.nodes@[id as int], at),
    decreases count,
{
    assert(model.nodes@.len() == model.nodes.len());
    if count > 0 {
        lemma_item_at(model, at, count - 1);
    }
}

/// The item around a nested list encloses the list.
pub proof fn lemma_list_parent(text: Seq<char>, model: HtmlModel, list: int)
    requires
        model.wf(text),
        0 <= list < model.nodes@.len(),
    ensures
        list_parent(model, list) matches Some((item, wrappers)) ==> chain_encloses(
            model.nodes@,
            model.nodes@[list].source,
            item,
            wrappers,
        ),
{
    lemma_through_divs(text, model, list, model.nodes@[list].source);
}

} // verus!
