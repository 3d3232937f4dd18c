//! Finished layouts of the visible blocks: how they are found, and which containers
//! are seen around them.
use crate::offset::{ByteOffset, Revision, TextRange};
use crate::presentation::{path_wf, PresentationKind, PresentationNode, PresentationTree};
use vstd::prelude::*;

verus! {

/// A block of a snapshot, by its number in the document and its source.
#[derive(Clone, Copy, Debug, PartialEq, Eq, Structural)]
pub struct SnapshotPlace {
    pub index: usize,
    pub source: TextRange,
}

/// Whether blocks stand in document order.
pub open spec fn places_wf(places: Seq<SnapshotPlace>) -> bool {
    forall|i: int, j: int|
        0 <= i < j < places.len() ==> (#[trigger] places[i]).index < (#[trigger] places[j]).index
            && places[i].source.start.value <= places[j].source.start.value
}

/// The place of block number `index` in a snapshot.
pub fn block(places: &[SnapshotPlace], index: usize) -> (r: Option<usize>)
    requires
        places_wf(places@),
    ensures
        match r {
            Some(k) => k < places@.len() && places@[k as int].index == index,
            None => forall|k: int| 0 <= k < places@.len() ==> (#[trigger] places@[k]).index != index,
        },
{
    let mut low: usize = 0;
    let mut high: usize = places.len();
    while low < high
        invariant
            places_wf(places@),
            low <= high <= places@.len(),
            forall|k: int| 0 <= k < low ==> (#[trigger] places@[k]).index < index,
            forall|k: int| high <= k < places@.len() ==> (#[trigger] places@[k]).index >= index,
        decreases high - low,
    {
        let middle = low + (high - low) / 2;
        if places[middle].index < index {
            assert forall|k: int| 0 <= k < middle + 1 implies (#[trigger] places@[k]).index
                < index by {
                if k < middle {
                    assert(places@[k].index < places@[middle as int].index);
                }
            }
            low = middle + 1;
        } else {
            assert forall|k: int| middle <= k < places@.len() implies (#[trigger] places@[k]).index
                >= index by {
                if k > middle {
                    assert(places@[middle as int].index < places@[k].index);
                }
            }
            high = middle;
        }
    }
    if low < places.len() && places[low].index == index {
        Some(low)
    } else {
        assert forall|k: int| 0 <= k < places@.len() implies (#[trigger] places@[k]).index
            != index by {
            if k > low {
                assert(places@[low as int].index < places@[k].index);
            }
        }
        None
    }
}

/// Whether the block at `k` is the last that begins at or before `source`.
pub open spec fn last_before(places: Seq<SnapshotPlace>, k: int, source: ByteOffset) -> bool {
    &&& 0 <= k < places.len()
    &&& places[k].source.start.value <= source.value
    &&& k + 1 < places.len() ==> places[k + 1].source.start.value > source.value
}

/// The place of the block that holds a source offset, its end included: the last that
/// begins at or before it, where it reaches so far.
pub fn block_for_source(places: &[SnapshotPlace], source: ByteOffset) -> (r: Option<usize>)
    requires
        places_wf(places@),
    ensures
        match r {
            Some(k) => last_before(places@, k as int, source) && source.value
                <= places@[k as int].source.end.value,
            None => forall|k: int| #[trigger]
                last_before(places@, k, source) ==> source.value > places@[k].source.end.value,
        },
{
    let mut low: usize = 0;
    let mut high: usize = places.len();
    while low < high
        invariant
            places_wf(places@),
            low <= high <= places@.len(),
            forall|k: int|
                0 <= k < low ==> (#[trigger] places@[k]).source.start.value <= source.value,
            forall|k: int|
                high <= k < places@.len() ==> (#[trigger] places@[k]).source.start.value
                    > source.value,
        decreases high - low,
    {
        let middle = low + (high - low) / 2;
        if places[middle].source.start.value <= source.value {
            assert forall|k: int| 0 <= k < middle + 1 implies (
            #[trigger] places@[k]).source.start.value <= source.value by {
                if k < middle {
                    assert(places@[k].index < places@[middle as int].index);
                }
            }
            low = middle + 1;
        } else {
            assert forall|k: int| middle <= k < places@.len() implies (
            #[trigger] places@[k]).source.start.value > source.value by {
                if k > middle {
                    assert(places@[middle as int].index < places@[k].index);
                }
            }
            high = middle;
        }
    }
    proof {
        assert forall|k: int| #[trigger] last_before(places@, k, source) implies k == low - 1 by {
            if k < low - 1 {
                assert(places@[k + 1].source.start.value <= source.value);
            }
        }
    }
    if low == 0 {
        return None;
    }
    assert(places@[low - 1].source.start.value <= source.value);
    assert(last_before(places@, low - 1, source));
    if source.value <= places[low - 1].source.end.value {
        Some(low - 1)
    } else {
        None
    }
}

/// What a finished layout says of itself. Its configuration is given by number: equal
/// ones have the same.
#[derive(Clone, Copy, Debug, PartialEq, Eq, Structural)]
pub struct LayoutFacts {
    pub revision: Revision,
    pub source: TextRange,
    pub config: u64,
}

/// Whether layouts belong to the blocks of a viewport at `revision`: as many, of that
/// revision, each of its block's source and configuration.
pub fn snapshot_matches(
    revision: Revision,
    viewport_revision: Revision,
    places: &[SnapshotPlace],
    configs: &[u64],
    layouts: &[LayoutFacts],
) -> (r: bool)
    requires
        configs@.len() == places@.len(),
    ensures
        r == (viewport_revision == revision && layouts@.len() == places@.len() && forall|k: int|
            0 <= k < layouts@.len() ==> (#[trigger] layouts@[k]) == (LayoutFacts {
                revision,
                source: places@[k].source,
                config: configs@[k],
            })),
{
    if viewport_revision != revision || layouts.len() != places.len() {
        return false;
    }
    let mut i: usize = 0;
    while i < layouts.len()
        invariant
            i <= layouts@.len() == places@.len(),
            configs@.len() == places@.len(),
            viewport_revision == revision,
            forall|k: int|
                0 <= k < i ==> (#[trigger] layouts@[k]) == (LayoutFacts {
                    revision,
                    source: places@[k].source,
                    config: configs@[k],
                }),
        decreases layouts@.len() - i,
    {
        let expected = LayoutFacts { revision, source: places[i].source, config: configs[i] };
        if layouts[i] != expected {
            assert(layouts@[i as int] != expected);
            return false;
        }
        i += 1;
    }
    true
}

/// A visible block, with the containers around it from the outermost to its leaf.
#[derive(Debug)]
pub struct VisibleBlock {
    pub source: TextRange,
    /// Whether it takes any room.
    pub has_height: bool,
    pub path: Vec<usize>,
}

/// How far a container stands in: so many list indents and quotation indents, less so
/// many left margins of quotations.
#[derive(Clone, Copy, Debug, PartialEq, Eq, Structural)]
pub struct Indent {
    pub lists: usize,
    pub quotes: usize,
    pub margins: usize,
}

/// A container around visible blocks.
#[derive(Clone, Copy, Debug, PartialEq, Eq, Structural)]
pub struct ContainerPlan {
    pub node: usize,
    /// The first visible block in it, at whose top it begins.
    pub first: usize,
    /// The last visible block in it.
    pub last: usize,
    /// Whether it goes on behind that block, so that the gap below belongs to it.
    pub continues: bool,
    pub indent: Indent,
    /// Whether the left margin of a quotation is added.
    pub margin: bool,
    /// Whether it begins before the first block of the snapshot.
    pub clipped_start: bool,
    /// Whether it ends behind the last block of the snapshot.
    pub clipped_end: bool,
}

/// Whether a node is a quotation, a list or an item.
pub open spec fn is_container(kind: PresentationKind) -> bool {
    kind == PresentationKind::Quote || kind == PresentationKind::List || kind
        == PresentationKind::ListItem
}

/// The indent inside the first `steps` containers of a path. A quotation inside an
/// item has no left margin.
pub open spec fn indent_of(
    nodes: Seq<PresentationNode>,
    path: Seq<usize>,
    steps: int,
) -> Indent
    decreases steps,
{
    if steps <= 0 {
        Indent { lists: 0, quotes: 0, margins: 0 }
    } else {
        let outer = indent_of(nodes, path, steps - 1);
        let kind = nodes[path[steps - 1] as int].kind;
        if kind == PresentationKind::Quote {
            Indent {
                quotes: (outer.quotes + 1) as usize,
                margins: if outer.lists > 0 {
                    (outer.margins + 1) as usize
                } else {
                    outer.margins
                },
                ..outer
            }
        } else if kind == PresentationKind::ListItem {
            Indent { lists: (outer.lists + 1) as usize, ..outer }
        } else {
            outer
        }
    }
}

/// The first step of `path` from `from` on that is `node`, or its length.
pub open spec fn step_of(path: Seq<usize>, node: usize, from: int) -> int
    decreases path.len() - from,
{
    if 0 <= from < path.len() && path[from] != node {
        step_of(path, node, from + 1)
    } else {
        from
    }
}

/// Whether `node` is around block `b`, and the block takes room.
pub open spec fn holds(block: VisibleBlock, node: usize) -> bool {
    block.has_height && block.path@.contains(node)
}

/// Whether a container is around some visible block.
pub open spec fn listed(
    nodes: Seq<PresentationNode>,
    blocks: Seq<VisibleBlock>,
    node: usize,
) -> bool {
    &&& node < nodes.len()
    &&& is_container(nodes[node as int].kind)
    &&& exists|b: int| 0 <= b < blocks.len() && holds(#[trigger] blocks[b], node)
}

/// Whether `plan` describes its container.
pub open spec fn plan_is(
    plan: ContainerPlan,
    nodes: Seq<PresentationNode>,
    blocks: Seq<VisibleBlock>,
) -> bool {
    let node = nodes[plan.node as int];
    let path = blocks[plan.last as int].path@;
    let outer = indent_of(nodes, path, step_of(path, plan.node, 0));
    &&& plan.first <= plan.last < blocks.len()
    &&& holds(blocks[plan.first as int], plan.node)
    &&& holds(blocks[plan.last as int], plan.node)
    &&& forall|b: int|
        0 <= b < blocks.len() && holds(#[trigger] blocks[b], plan.node) ==> plan.first <= b
            <= plan.last
    &&& plan.continues == (blocks[plan.last as int].source.end.value < node.content_end.value)
    &&& plan.indent == outer
    &&& plan.margin == (node.kind == PresentationKind::Quote && outer.lists == 0)
    &&& plan.clipped_start == (blocks[0].source.start.value > node.source.start.value)
    &&& plan.clipped_end == (blocks.last().source.end.value < node.source.end.value)
}

/// Whether numbers strictly increase.
pub open spec fn increasing(ids: Seq<usize>) -> bool {
    forall|i: int, j: int| 0 <= i < j < ids.len() ==> ids[i] < ids[j]
}

/// Inserts a number into strictly increasing ones, unless it is there.
fn insert_id(ids: &mut Vec<usize>, id: usize)
    requires
        increasing(old(ids)@),
    ensures
        increasing(final(ids)@),
        forall|x: usize| #[trigger] final(ids)@.contains(x) <==> old(ids)@.contains(x) || x == id,
{
    let mut place: usize = ids.len();
    while place > 0 && ids[place - 1] > id
        invariant
            place <= ids@.len(),
            ids@ == old(ids)@,
            increasing(ids@),
            forall|k: int| place <= k < ids@.len() ==> (#[trigger] ids@[k]) > id,
        decreases place,
    {
        place -= 1;
    }
    let ghost before = ids@;
    if place > 0 && ids[place - 1] == id {
        assert(before[place - 1] == id);
        return ;
    }
    ids.insert(place, id);
    proof {
        let after = ids@;
        assert(after =~= before.insert(place as int, id));
        assert forall|i: int, j: int| 0 <= i < j < after.len() implies after[i] < after[j] by {
            let a = if i < place {
                i
            } else {
                i - 1
            };
            let b = if j < place {
                j
            } else {
                j - 1
            };
            if place > 0 {
                assert(before[place - 1] < id);
            }
            if i < place && i < place - 1 {
                assert(before[i] < before[place - 1]);
            }
            if i == place {
                assert(before[b] > id);
            } else if j != place {
                assert(before[a] < before[b]);
            }
        }
        assert forall|x: usize| #[trigger] after.contains(x) <==> before.contains(x) || x == id by {
            if before.contains(x) {
                let k = before.index_of(x);
                if k < place {
                    assert(after[k] == x);
                } else {
                    assert(after[k + 1] == x);
                }
            }
            if x == id {
                assert(after[place as int] == x);
            }
            if after.contains(x) {
                let k = after.index_of(x);
                if k < place {
                    assert(before[k] == x);
                } else if k > place {
                    assert(before[k - 1] == x);
                }
            }
        }
    }
}

fn path_has(path: &Vec<usize>, node: usize) -> (r: bool)
    ensures
        r == path@.contains(node),
{
    let mut i: usize = 0;
    while i < path.len()
        invariant
            i <= path@.len(),
            forall|k: int| 0 <= k < i ==> path@[k] != node,
        decreases path@.len() - i,
    {
        if path[i] == node {
            return true;
        }
        i += 1;
    }
    false
}

/// The containers that are around some block, in order.
fn container_ids(tree: &PresentationTree, blocks: &[VisibleBlock]) -> (r: Vec<usize>)
    requires
        forall|b: int|
            0 <= b < blocks@.len() ==> path_wf(tree.nodes@, (#[trigger] blocks@[b]).path@),
    ensures
        increasing(r@),
        forall|x: usize| #[trigger] r@.contains(x) <==> listed(tree.nodes@, blocks@, x),
{
    let mut ids: Vec<usize> = Vec::new();
    let ghost nodes = tree.nodes@;
    let mut b: usize = 0;
    while b < blocks.len()
        invariant
            b <= blocks@.len(),
            nodes == tree.nodes@,
            forall|k: int|
                0 <= k < blocks@.len() ==> path_wf(nodes, (#[trigger] blocks@[k]).path@),
            increasing(ids@),
            forall|x: usize| #[trigger] ids@.contains(x) <==> listed(
                nodes,
                blocks@.take(b as int),
                x,
            ),
        decreases blocks@.len() - b,
    {
        let ghost start = ids@;
        let ghost path = blocks@[b as int].path@;
        if blocks[b].has_height {
            let mut i: usize = 0;
            while i < blocks[b].path.len()
                invariant
                    b < blocks@.len(),
                    i <= path.len(),
                    nodes == tree.nodes@,
                    path == blocks@[b as int].path@,
                    path_wf(nodes, path),
                    increasing(ids@),
                    forall|x: usize| #[trigger] ids@.contains(x) <==> start.contains(x) || (
                    path.take(i as int).contains(x) && is_container(nodes[x as int].kind)),
                decreases path.len() - i,
            {
                let id = blocks[b].path[i];
                assert(path[i as int] < nodes.len());
                let kind = tree.nodes[id].kind;
                proof {
                    let shorter = path.take(i as int);
                    let longer = path.take(i + 1);
                    assert forall|x: usize| #[trigger] longer.contains(x) <==> shorter.contains(x)
                        || x == id by {
                        if shorter.contains(x) {
                            let k = shorter.index_of(x);
                            assert(longer[k] == x);
                        }
                        if x == id {
                            assert(longer[i as int] == x);
                        }
                        if longer.contains(x) {
                            let k = longer.index_of(x);
                            if k < i {
                                assert(shorter[k] == x);
                            }
                        }
                    }
                }
                if kind == PresentationKind::Quote || kind == PresentationKind::List || kind
                    == PresentationKind::ListItem {
                    insert_id(&mut ids, id);
                }
                i += 1;
            }
            assert(path.take(path.len() as int) =~= path);
        }
        proof {
            let done = blocks@.take(b as int);
            let more = blocks@.take(b + 1);
            assert forall|x: usize| #[trigger] ids@.contains(x) <==> listed(nodes, more, x) by {
                if listed(nodes, done, x) {
                    let k = choose|k: int| 0 <= k < done.len() && holds(#[trigger] done[k], x);
                    assert(holds(more[k], x));
                }
                if listed(nodes, more, x) {
                    let k = choose|k: int| 0 <= k < more.len() && holds(#[trigger] more[k], x);
                    if k < b {
                        assert(holds(done[k], x));
                        assert(listed(nodes, done, x));
                    } else {
                        assert(path.contains(x));
                    }
                }
                if blocks@[b as int].has_height && path.contains(x) && is_container(
                    nodes[x as int].kind,
                ) {
                    let k = path.index_of(x);
                    assert(path[k] < nodes.len());
                    assert(holds(more[b as int], x));
                }
                assert(start.contains(x) <==> listed(nodes, done, x));
            }
        }
        b += 1;
    }
    assert(blocks@.take(blocks@.len() as int) =~= blocks@);
    ids
}

/// The indent of a container on a path.
fn find_indent(tree: &PresentationTree, path: &Vec<usize>, node: usize) -> (r: Indent)
    requires
        path_wf(tree.nodes@, path@),
    ensures
        r == indent_of(tree.nodes@, path@, step_of(path@, node, 0)),
{
    let mut indent = Indent { lists: 0, quotes: 0, margins: 0 };
    let mut i: usize = 0;
    while i < path.len() && path[i] != node
        invariant
            i <= path@.len(),
            path_wf(tree.nodes@, path@),
            step_of(path@, node, i as int) == step_of(path@, node, 0),
            indent == indent_of(tree.nodes@, path@, i as int),
            indent.lists <= i,
            indent.quotes <= i,
            indent.margins <= i,
        decreases path@.len() - i,
    {
        assert(path@[i as int] < tree.nodes@.len());
        let kind = tree.nodes[path[i]].kind;
        if kind == PresentationKind::Quote {
            let margins = if indent.lists > 0 {
                indent.margins + 1
            } else {
                indent.margins
            };
            indent = Indent { lists: indent.lists, quotes: indent.quotes + 1, margins };
        } else if kind == PresentationKind::ListItem {
            indent =
            Indent { lists: indent.lists + 1, quotes: indent.quotes, margins: indent.margins };
        }
        i += 1;
    }
    indent
}

/// Describes one container.
fn container_plan(tree: &PresentationTree, blocks: &[VisibleBlock], node: usize) -> (r:
    ContainerPlan)
    requires
        forall|b: int|
            0 <= b < blocks@.len() ==> path_wf(tree.nodes@, (#[trigger] blocks@[b]).path@),
        listed(tree.nodes@, blocks@, node),
    ensures
        r.node == node,
        plan_is(r, tree.nodes@, blocks@),
{
    let ghost witness = choose|b: int|
        0 <= b < blocks@.len() && holds(#[trigger] blocks@[b], node);
    let mut first: usize = 0;
    while !(blocks[first].has_height && path_has(&blocks[first].path, node))
        invariant
            first <= witness < blocks@.len(),
            holds(blocks@[witness], node),
            forall|b: int| 0 <= b < first ==> !holds(#[trigger] blocks@[b], node),
        decreases blocks@.len() - first,
    {
        assert(!holds(blocks@[first as int], node));
        first += 1;
    }
    let mut last: usize = blocks.len() - 1;
    while !(blocks[last].has_height && path_has(&blocks[last].path, node))
        invariant
            first <= last < blocks@.len(),
            holds(blocks@[first as int], node),
            forall|b: int| last < b < blocks@.len() ==> !holds(#[trigger] blocks@[b], node),
        decreases last,
    {
        assert(!holds(blocks@[last as int], node));
        last -= 1;
    }
    let indent = find_indent(tree, &blocks[last].path, node);
    let kind = tree.nodes[node].kind;
    ContainerPlan {
        node,
        first,
        last,
        continues: blocks[last].source.end.value < tree.nodes[node].content_end.value,
        indent,
        margin: kind == PresentationKind::Quote && indent.lists == 0,
        clipped_start: blocks[0].source.start.value > tree.nodes[node].source.start.value,
        clipped_end: blocks[blocks.len() - 1].source.end.value
            < tree.nodes[node].source.end.value,
    }
}

/// The containers around the visible blocks, in document order: which blocks each
/// spans, how far it stands in, and whether it goes on outside.
pub fn container_geometry(tree: &PresentationTree, blocks: &[VisibleBlock]) -> (r: Vec<
    ContainerPlan,
>)
    requires
        forall|b: int|
            0 <= b < blocks@.len() ==> path_wf(tree.nodes@, (#[trigger] blocks@[b]).path@),
    ensures
        forall|i: int, j: int|
            0 <= i < j < r@.len() ==> (#[trigger] r@[i]).node < (#[trigger] r@[j]).node,
        forall|k: int| 0 <= k < r@.len() ==> plan_is(#[trigger] r@[k], tree.nodes@, blocks@),
        forall|node: usize| #[trigger]
            listed(tree.nodes@, blocks@, node) <==> exists|k: int|
                0 <= k < r@.len() && (#[trigger] r@[k]).node == node,
{
    let ids = container_ids(tree, blocks);
    let mut out: Vec<ContainerPlan> = Vec::new();
    let mut i: usize = 0;
    while i < ids.len()
        invariant
            i <= ids@.len(),
            out@.len() == i,
            increasing(ids@),
            forall|b: int|
                0 <= b < blocks@.len() ==> path_wf(tree.nodes@, (#[trigger] blocks@[b]).path@),
            forall|x: usize| #[trigger] ids@.contains(x) <==> listed(tree.nodes@, blocks@, x),
            forall|k: int|
                0 <= k < i ==> (#[trigger] out@[k]).node == ids@[k] && plan_is(
                    out@[k],
                    tree.nodes@,
                    blocks@,
                ),
        decreases ids@.len() - i,
    {
        assert(ids@.contains(ids@[i as int]));
        out.push(container_plan(tree, blocks, ids[i]));
        i += 1;
    }
    proof {
        assert forall|node: usize| #[trigger]
            listed(tree.nodes@, blocks@, node) <==> exists|k: int|
                0 <= k < out@.len() && (#[trigger] out@[k]).node == node by {
            if listed(tree.nodes@, blocks@, node) {
                assert(ids@.contains(node));
                let k = ids@.index_of(node);
                assert(out@[k].node == node);
            }
            if exists|k: int| 0 <= k < out@.len() && (#[trigger] out@[k]).node == node {
                let k = choose|k: int| 0 <= k < out@.len() && (#[trigger] out@[k]).node == node;
                assert(ids@.contains(ids@[k]));
            }
        }
    }
    out
}

/// How far a container stands in is counted on the way to it: a quotation indent for every
/// quotation, a list indent for every item, and a left margin less for every quotation that
/// an item is around. Nothing else counts.
pub proof fn law_indent_counts_containers(
    nodes: Seq<PresentationNode>,
    path: Seq<usize>,
    steps: int,
)
    requires
        0 <= steps <= path.len() <= usize::MAX,
    ensures
        ({
            let indent = indent_of(nodes, path, steps);
            let quotes = path.take(steps).filter(
                |id: usize| nodes[id as int].kind == PresentationKind::Quote,
            );
            let items = path.take(steps).filter(
                |id: usize| nodes[id as int].kind == PresentationKind::ListItem,
            );
            &&& indent.quotes == quotes.len()
            &&& indent.lists == items.len()
            &&& indent.margins <= indent.quotes
            &&& indent.lists == 0 ==> indent.margins == 0
            &&& steps > 0 && nodes[path[steps - 1] as int].kind == PresentationKind::Quote
                ==> indent.margins - indent_of(nodes, path, steps - 1).margins == (if indent.lists
                > 0 {
                1int
            } else {
                0
            })
        }),
    decreases steps,
{
    reveal(Seq::filter);
    if steps > 0 {
        law_indent_counts_containers(nodes, path, steps - 1);
        let outer = indent_of(nodes, path, steps - 1);
        let front = path.take(steps - 1);
        assert(path.take(steps).drop_last() =~= front);
        assert(path.take(steps).last() == path[steps - 1]);
        let quote = |id: usize| nodes[id as int].kind == PresentationKind::Quote;
        let item = |id: usize| nodes[id as int].kind == PresentationKind::ListItem;
        lemma_filter_len(front, quote);
        lemma_filter_len(front, item);
    }
}

proof fn lemma_filter_len(path: Seq<usize>, keep: spec_fn(usize) -> bool)
    ensures
        path.filter(keep).len() <= path.len(),
    decreases path.len(),
{
    reveal(Seq::filter);
    if path.len() > 0 {
        lemma_filter_len(path.drop_last(), keep);
    }
}

} // verus!
