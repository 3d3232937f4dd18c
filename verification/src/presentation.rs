//! Containers of a document and the rules by which blocks keep their distance.
//!
//! Distances come from a theme and are no integers; what is decided here is which of
//! the theme's distances count. Where several count, the largest wins.
use crate::block::BlockKind;
use crate::offset::{ByteOffset, TextRange};
use vstd::prelude::*;

verus! {

/// What a node of the presentation is.
#[derive(Clone, Copy, Debug, PartialEq, Eq, Structural)]
pub enum PresentationKind {
    Document,
    Paragraph,
    EmptyParagraph,
    Quote,
    List,
    ListItem,
    Other,
}

/// A container or a leaf of the presentation.
#[derive(Debug)]
pub struct PresentationNode {
    pub kind: PresentationKind,
    pub source: TextRange,
    /// Where the last of its content ends.
    pub content_end: ByteOffset,
    pub parent: Option<usize>,
    pub children: Vec<usize>,
}

/// The containers of a document. Parents stand before their children.
#[derive(Debug)]
pub struct PresentationTree {
    pub nodes: Vec<PresentationNode>,
}

/// Whether every parent stands before its child.
pub open spec fn tree_wf(nodes: Seq<PresentationNode>) -> bool {
    forall|i: int| 0 <= i < nodes.len() ==> ((#[trigger] nodes[i]).parent matches Some(p) ==> p < i)
}

/// Whether every step of `path` is a node.
pub open spec fn path_wf(nodes: Seq<PresentationNode>, path: Seq<usize>) -> bool {
    forall|i: int| 0 <= i < path.len() ==> (#[trigger] path[i]) < nodes.len()
}

impl PresentationTree {
    /// Whether every parent stands before its child.
    pub fn is_valid(&self) -> (r: bool)
        ensures
            r == tree_wf(self.nodes@),
    {
        let mut i: usize = 0;
        while i < self.nodes.len()
            invariant
                i <= self.nodes@.len(),
                forall|k: int|
                    0 <= k < i ==> ((#[trigger] self.nodes@[k]).parent matches Some(p) ==> p < k),
            decreases self.nodes@.len() - i,
        {
            if let Some(p) = self.nodes[i].parent {
                if p >= i {
                    assert(!(self.nodes@[i as int].parent matches Some(p) ==> p < i));
                    return false;
                }
            }
            i += 1;
        }
        true
    }

    /// Whether every step of a path is a node.
    pub fn has_path(&self, path: &[usize]) -> (r: bool)
        ensures
            r == path_wf(self.nodes@, path@),
    {
        let mut i: usize = 0;
        while i < path.len()
            invariant
                i <= path@.len(),
                forall|k: int| 0 <= k < i ==> (#[trigger] path@[k]) < self.nodes@.len(),
            decreases path@.len() - i,
        {
            if path[i] >= self.nodes.len() {
                assert(path@[i as int] >= self.nodes@.len());
                return false;
            }
            i += 1;
        }
        true
    }
}

/// The margin of a quotation that counts.
#[derive(Clone, Copy, Debug, PartialEq, Eq, Structural)]
pub enum QuoteMargin {
    /// None.
    Zero,
    /// One size of the body text.
    Body,
    /// The theme's margin above a quotation.
    Before,
    /// The theme's margin below a quotation.
    After,
}

/// Whether the first child of `node` is `id`.
pub open spec fn first_is(node: PresentationNode, id: int) -> bool {
    node.children@.len() > 0 && node.children@[0] == id
}

/// Whether the last child of `node` is `id`.
pub open spec fn last_is(node: PresentationNode, id: int) -> bool {
    node.children@.len() > 0 && node.children@.last() == id
}

/// Whether an item of a list holds node `id`.
pub open spec fn in_item(nodes: Seq<PresentationNode>, id: int) -> bool
    decreases id,
{
    match nodes[id].parent {
        Some(p) if p < id => nodes[p as int].kind == PresentationKind::ListItem || in_item(
            nodes,
            p as int,
        ),
        _ => false,
    }
}

/// The margin of quotation `id`, below it where `after`, else above it. The first
/// child of a quotation or an item has none above, the last of a quotation none
/// below; inside a list it is one body size.
pub open spec fn quote_rule(nodes: Seq<PresentationNode>, id: int, after: bool) -> QuoteMargin {
    let parent = nodes[id].parent;
    let above = nodes[parent->Some_0 as int];
    if parent is Some && !after && (above.kind == PresentationKind::Quote || above.kind
        == PresentationKind::ListItem) && first_is(above, id) {
        QuoteMargin::Zero
    } else if parent is Some && after && above.kind == PresentationKind::Quote && last_is(
        above,
        id,
    ) {
        QuoteMargin::Zero
    } else if in_item(nodes, id) {
        QuoteMargin::Body
    } else if after {
        QuoteMargin::After
    } else {
        QuoteMargin::Before
    }
}

impl PresentationNode {
    fn first_child_is(&self, id: usize) -> (r: bool)
        ensures
            r == first_is(*self, id as int),
    {
        self.children.len() > 0 && self.children[0] == id
    }

    fn last_child_is(&self, id: usize) -> (r: bool)
        ensures
            r == last_is(*self, id as int),
    {
        self.children.len() > 0 && self.children[self.children.len() - 1] == id
    }
}

/// The margin of a quotation that counts.
pub fn quote_margin(tree: &PresentationTree, id: usize, after: bool) -> (r: QuoteMargin)
    requires
        tree_wf(tree.nodes@),
        id < tree.nodes@.len(),
    ensures
        r == quote_rule(tree.nodes@, id as int, after),
{
    assert(tree.nodes@[id as int].parent matches Some(p) ==> p < id);
    if let Some(p) = tree.nodes[id].parent {
        let above = &tree.nodes[p];
        if !after && (above.kind == PresentationKind::Quote || above.kind
            == PresentationKind::ListItem) && above.first_child_is(id) {
            return QuoteMargin::Zero;
        }
        if after && above.kind == PresentationKind::Quote && above.last_child_is(id) {
            return QuoteMargin::Zero;
        }
    }
    let mut at: usize = id;
    loop
        invariant
            tree_wf(tree.nodes@),
            at < tree.nodes@.len(),
            in_item(tree.nodes@, at as int) == in_item(tree.nodes@, id as int),
            !(tree.nodes@[id as int].parent is Some && !after && (tree.nodes@[tree.nodes@[id as int].parent->Some_0 as int].kind
                == PresentationKind::Quote || tree.nodes@[tree.nodes@[id as int].parent->Some_0 as int].kind
                == PresentationKind::ListItem) && first_is(
                tree.nodes@[tree.nodes@[id as int].parent->Some_0 as int],
                id as int,
            )),
            !(tree.nodes@[id as int].parent is Some && after
                && tree.nodes@[tree.nodes@[id as int].parent->Some_0 as int].kind
                == PresentationKind::Quote && last_is(
                tree.nodes@[tree.nodes@[id as int].parent->Some_0 as int],
                id as int,
            )),
        decreases at,
    {
        assert(tree.nodes@[at as int].parent matches Some(p) ==> p < at);
        match tree.nodes[at].parent {
            Some(p) => {
                if tree.nodes[p].kind == PresentationKind::ListItem {
                    return QuoteMargin::Body;
                }
                at = p;
            },
            None => {
                return if after {
                    QuoteMargin::After
                } else {
                    QuoteMargin::Before
                };
            },
        }
    }
}

/// Which of the theme's margins a block has.
#[derive(Clone, Copy, Debug, PartialEq, Eq, Structural)]
pub enum BlockMargin {
    /// Those of a heading, by its place among the six levels.
    Heading { index: usize },
    Code,
    /// None.
    Zero,
    Paragraph,
}

/// The margins of a block of kind `kind`.
pub open spec fn margin_of(kind: BlockKind) -> BlockMargin {
    match kind {
        BlockKind::Heading { level } => BlockMargin::Heading {
            index: if level < 1 {
                0
            } else if level > 6 {
                5
            } else {
                (level - 1) as usize
            },
        },
        BlockKind::FencedCodeBlock { .. } => BlockMargin::Code,
        BlockKind::IndentedCode => BlockMargin::Code,
        BlockKind::BlankLine => BlockMargin::Zero,
        BlockKind::ReferenceDefinition => BlockMargin::Zero,
        BlockKind::HtmlBlock => BlockMargin::Zero,
        _ => BlockMargin::Paragraph,
    }
}

/// The margins of a block. Lines between blocks have none.
pub fn block_spacing(kind: BlockKind) -> (r: BlockMargin)
    ensures
        r == margin_of(kind),
{
    match kind {
        BlockKind::Heading { level } => {
            let index: usize = if level < 1 {
                0
            } else if level > 6 {
                5
            } else {
                level as usize - 1
            };
            BlockMargin::Heading { index }
        },
        BlockKind::FencedCodeBlock { marker: _, closed: _ } => BlockMargin::Code,
        BlockKind::IndentedCode => BlockMargin::Code,
        BlockKind::BlankLine => BlockMargin::Zero,
        BlockKind::ReferenceDefinition => BlockMargin::Zero,
        BlockKind::HtmlBlock => BlockMargin::Zero,
        _ => BlockMargin::Paragraph,
    }
}

/// The place of a heading's level among the six, or `None` for a level that is none.
pub fn heading_index(level: u8) -> (r: Option<usize>)
    ensures
        r == (if 1 <= level <= 6 {
            Some((level - 1) as usize)
        } else {
            None
        }),
{
    if 1 <= level && level <= 6 {
        Some(level as usize - 1)
    } else {
        None
    }
}

/// Whether a block holds code, fenced or indented.
pub open spec fn code_block(kind: BlockKind) -> bool {
    match kind {
        BlockKind::FencedCodeBlock { .. } => true,
        BlockKind::IndentedCode => true,
        _ => false,
    }
}

/// Whether a block holds code, fenced or indented.
pub fn is_code_block(kind: BlockKind) -> (r: bool)
    ensures
        r == code_block(kind),
{
    match kind {
        BlockKind::FencedCodeBlock { marker: _, closed: _ } => true,
        BlockKind::IndentedCode => true,
        _ => false,
    }
}

/// What narrows a block's lines from the right.
#[derive(Clone, Copy, Debug, PartialEq, Eq, Structural)]
pub struct RightInset {
    pub code: bool,
    /// How often the padding of a quotation counts.
    pub quotes: u8,
}

/// What narrows the lines of a block: the edge of a code block, the padding of a
/// quotation, and that of a quotation around it.
pub fn box_layout_config_with_quote(kind: BlockKind, in_quote: bool) -> (r: RightInset)
    ensures
        r.code == code_block(kind),
        r.quotes == (if kind is BlockQuote || in_quote {
            1u8
        } else {
            0u8
        }),
{
    let is_quote = match kind {
        BlockKind::BlockQuote { depth: _ } => true,
        _ => false,
    };
    RightInset {
        code: is_code_block(kind),
        quotes: if is_quote || in_quote {
            1
        } else {
            0
        },
    }
}

/// A distance that counts between two blocks.
#[derive(Clone, Copy, Debug, PartialEq, Eq, Structural)]
pub enum MarginTerm {
    Zero,
    /// Above a block of this kind.
    BlockBefore(BlockKind),
    /// Below a block of this kind.
    BlockAfter(BlockKind),
    /// Around a table.
    Table,
    /// Around a paragraph of a list item.
    ListParagraph,
    /// Around a quotation.
    Quote(QuoteMargin),
    /// Above a list.
    ParagraphBefore,
    /// Below a list.
    ParagraphAfter,
}

/// What the rules read of a block.
#[derive(Clone, Copy, Debug, PartialEq, Eq, Structural)]
pub struct GapBlock {
    pub kind: BlockKind,
    /// Whether it is a table.
    pub table: bool,
}

/// The parent of node `id`, where that is a list item.
pub open spec fn item_above(nodes: Seq<PresentationNode>, id: int) -> Option<usize> {
    match nodes[id].parent {
        Some(p) if nodes[p as int].kind == PresentationKind::ListItem => Some(p),
        _ => None,
    }
}

/// The margin of the block whose leaf is `leaf`, before what its containers add: that
/// of its kind, save that tables, and paragraphs directly in a list item, have their
/// own. The first child of a quotation has none above, the last none below.
pub open spec fn leaf_margin(
    nodes: Seq<PresentationNode>,
    leaf: int,
    block: GapBlock,
    after: bool,
) -> MarginTerm {
    let node = nodes[leaf];
    let kind = if node.kind == PresentationKind::EmptyParagraph {
        BlockKind::Paragraph
    } else {
        block.kind
    };
    let item = item_above(nodes, leaf);
    let above = nodes[node.parent->Some_0 as int];
    if node.parent is Some && above.kind == PresentationKind::Quote && (if after {
        last_is(above, leaf)
    } else {
        first_is(above, leaf)
    }) {
        MarginTerm::Zero
    } else if block.table {
        if after && item is Some && last_is(nodes[item->Some_0 as int], leaf) {
            MarginTerm::ListParagraph
        } else {
            MarginTerm::Table
        }
    } else if node.kind == PresentationKind::Paragraph && item is Some {
        if !after && first_is(nodes[item->Some_0 as int], leaf) {
            MarginTerm::Zero
        } else {
            MarginTerm::ListParagraph
        }
    } else if after {
        MarginTerm::BlockAfter(kind)
    } else {
        MarginTerm::BlockBefore(kind)
    }
}

/// What container `id` adds: a quotation its margin, a list its own unless it stands
/// in an item, any other nothing.
pub open spec fn container_margin(nodes: Seq<PresentationNode>, id: int, after: bool) -> Option<
    MarginTerm,
> {
    let node = nodes[id];
    if node.kind == PresentationKind::Quote {
        Some(MarginTerm::Quote(quote_rule(nodes, id, after)))
    } else if node.kind == PresentationKind::List && item_above(nodes, id) is None {
        Some(
            if after {
                MarginTerm::ParagraphAfter
            } else {
                MarginTerm::ParagraphBefore
            },
        )
    } else {
        None
    }
}

/// What the containers `path[from..to]` add, outermost first.
pub open spec fn container_margins(
    nodes: Seq<PresentationNode>,
    path: Seq<usize>,
    from: int,
    to: int,
    after: bool,
) -> Seq<MarginTerm>
    decreases to - from,
{
    if from >= to {
        Seq::empty()
    } else {
        let before = container_margins(nodes, path, from, to - 1, after);
        match container_margin(nodes, path[to - 1] as int, after) {
            Some(term) => before.push(term),
            None => before,
        }
    }
}

/// The margins on one side of a gap: that of the leaf, and those of the containers
/// that begin or end there, which are those beyond the first `common`.
pub open spec fn side_margins(
    nodes: Seq<PresentationNode>,
    path: Seq<usize>,
    block: GapBlock,
    common: int,
    after: bool,
) -> Seq<MarginTerm> {
    let last = path.len() - 1;
    seq![leaf_margin(nodes, path[last] as int, block, after)] + container_margins(
        nodes,
        path,
        if common <= last {
            common
        } else {
            last
        },
        last,
        after,
    )
}

/// How many steps two paths have in common.
pub open spec fn common_steps(a: Seq<usize>, b: Seq<usize>, from: int) -> int
    decreases a.len() - from,
{
    if 0 <= from < a.len() && from < b.len() && a[from] == b[from] {
        common_steps(a, b, from + 1)
    } else {
        from
    }
}

/// The distances that count between `upper` and the block below it, or below `upper`
/// where nothing follows. In source mode there is none.
pub open spec fn gap_terms(
    source_mode: bool,
    nodes: Seq<PresentationNode>,
    upper: GapBlock,
    upper_path: Seq<usize>,
    lower: Option<GapBlock>,
    lower_path: Seq<usize>,
) -> Seq<MarginTerm> {
    if source_mode {
        seq![MarginTerm::Zero]
    } else if upper_path.len() == 0 || (lower is Some && lower_path.len() == 0) {
        let kind = if upper_path.len() > 0 && nodes[upper_path.last() as int].kind
            == PresentationKind::EmptyParagraph {
            BlockKind::Paragraph
        } else {
            upper.kind
        };
        match lower {
            None => seq![MarginTerm::BlockAfter(kind)],
            Some(below) => seq![MarginTerm::BlockAfter(kind), MarginTerm::BlockBefore(below.kind)],
        }
    } else {
        let common = match lower {
            Some(_) => common_steps(upper_path, lower_path, 0),
            None => 0,
        };
        let above = side_margins(nodes, upper_path, upper, common, true);
        match lower {
            None => above,
            Some(below) => above + side_margins(nodes, lower_path, below, common, false),
        }
    }
}

fn list_item_above(tree: &PresentationTree, id: usize) -> (r: Option<usize>)
    requires
        tree_wf(tree.nodes@),
        id < tree.nodes@.len(),
    ensures
        r == item_above(tree.nodes@, id as int),
        r matches Some(p) ==> p < tree.nodes@.len(),
{
    assert(tree.nodes@[id as int].parent matches Some(p) ==> p < id);
    match tree.nodes[id].parent {
        Some(p) => {
            if tree.nodes[p].kind == PresentationKind::ListItem {
                Some(p)
            } else {
                None
            }
        },
        None => None,
    }
}

fn leaf_term(tree: &PresentationTree, leaf: usize, block: GapBlock, after: bool) -> (r: MarginTerm)
    requires
        tree_wf(tree.nodes@),
        leaf < tree.nodes@.len(),
    ensures
        r == leaf_margin(tree.nodes@, leaf as int, block, after),
{
    assert(tree.nodes@[leaf as int].parent matches Some(p) ==> p < leaf);
    if let Some(p) = tree.nodes[leaf].parent {
        let above = &tree.nodes[p];
        if above.kind == PresentationKind::Quote {
            let at_end = if after {
                above.last_child_is(leaf)
            } else {
                above.first_child_is(leaf)
            };
            if at_end {
                return MarginTerm::Zero;
            }
        }
    }
    let own = tree.nodes[leaf].kind;
    let kind = if own == PresentationKind::EmptyParagraph {
        BlockKind::Paragraph
    } else {
        block.kind
    };
    let item = list_item_above(tree, leaf);
    if block.table {
        if let Some(p) = item {
            if after && tree.nodes[p].last_child_is(leaf) {
                return MarginTerm::ListParagraph;
            }
        }
        return MarginTerm::Table;
    }
    if own == PresentationKind::Paragraph {
        if let Some(p) = item {
            if !after && tree.nodes[p].first_child_is(leaf) {
                return MarginTerm::Zero;
            }
            return MarginTerm::ListParagraph;
        }
    }
    if after {
        MarginTerm::BlockAfter(kind)
    } else {
        MarginTerm::BlockBefore(kind)
    }
}

fn push_side(
    out: &mut Vec<MarginTerm>,
    tree: &PresentationTree,
    path: &[usize],
    block: GapBlock,
    common: usize,
    after: bool,
)
    requires
        tree_wf(tree.nodes@),
        path_wf(tree.nodes@, path@),
        path@.len() > 0,
    ensures
        final(out)@ == old(out)@ + side_margins(
            tree.nodes@,
            path@,
            block,
            common as int,
            after,
        ),
{
    let last = path.len() - 1;
    let ghost nodes = tree.nodes@;
    assert(path@[last as int] < nodes.len());
    out.push(leaf_term(tree, path[last], block, after));
    let from = if common <= last {
        common
    } else {
        last
    };
    let ghost base = out@;
    let mut i: usize = from;
    assert(base + container_margins(nodes, path@, from as int, from as int, after) =~= base);
    while i < last
        invariant
            from <= i <= last < path@.len(),
            nodes == tree.nodes@,
            tree_wf(nodes),
            path_wf(nodes, path@),
            out@ == base + container_margins(nodes, path@, from as int, i as int, after),
        decreases last - i,
    {
        let id = path[i];
        assert(path@[i as int] < nodes.len());
        let kind = tree.nodes[id].kind;
        let ghost so_far = container_margins(nodes, path@, from as int, i as int, after);
        if kind == PresentationKind::Quote {
            let term = MarginTerm::Quote(quote_margin(tree, id, after));
            out.push(term);
            assert(base + so_far.push(term) =~= (base + so_far).push(term));
        } else if kind == PresentationKind::List && list_item_above(tree, id).is_none() {
            let term = if after {
                MarginTerm::ParagraphAfter
            } else {
                MarginTerm::ParagraphBefore
            };
            out.push(term);
            assert(base + so_far.push(term) =~= (base + so_far).push(term));
        }
        i += 1;
    }
    assert(out@ =~= old(out)@ + side_margins(nodes, path@, block, common as int, after));
}

fn count_common(a: &[usize], b: &[usize]) -> (r: usize)
    ensures
        r == common_steps(a@, b@, 0),
{
    let mut i: usize = 0;
    while i < a.len() && i < b.len() && a[i] == b[i]
        invariant
            i <= a@.len(),
            common_steps(a@, b@, i as int) == common_steps(a@, b@, 0),
        decreases a@.len() - i,
    {
        i += 1;
    }
    i
}

/// The distances that count between two blocks that follow each other. Margins meet
/// along the two branches below the container that holds both, and the largest wins.
pub fn structural_block_gap(
    source_mode: bool,
    tree: &PresentationTree,
    upper: GapBlock,
    upper_path: &[usize],
    lower: Option<GapBlock>,
    lower_path: &[usize],
) -> (r: Vec<MarginTerm>)
    requires
        tree_wf(tree.nodes@),
        path_wf(tree.nodes@, upper_path@),
        path_wf(tree.nodes@, lower_path@),
    ensures
        r@ == gap_terms(source_mode, tree.nodes@, upper, upper_path@, lower, lower_path@),
        r@.len() > 0,
{
    let mut out: Vec<MarginTerm> = Vec::new();
    if source_mode {
        out.push(MarginTerm::Zero);
        assert(out@ =~= seq![MarginTerm::Zero]);
        return out;
    }
    if upper_path.len() == 0 || (lower.is_some() && lower_path.len() == 0) {
        let kind = if upper_path.len() > 0 {
            let last = upper_path.len() - 1;
            assert(upper_path@[last as int] < tree.nodes@.len());
            if tree.nodes[upper_path[last]].kind == PresentationKind::EmptyParagraph {
                BlockKind::Paragraph
            } else {
                upper.kind
            }
        } else {
            upper.kind
        };
        out.push(MarginTerm::BlockAfter(kind));
        if let Some(below) = lower {
            out.push(MarginTerm::BlockBefore(below.kind));
        }
        assert(out@ =~= gap_terms(
            source_mode,
            tree.nodes@,
            upper,
            upper_path@,
            lower,
            lower_path@,
        ));
        return out;
    }
    match lower {
        None => {
            push_side(&mut out, tree, upper_path, upper, 0, true);
        },
        Some(below) => {
            let common = count_common(upper_path, lower_path);
            push_side(&mut out, tree, upper_path, upper, common, true);
            push_side(&mut out, tree, lower_path, below, common, false);
        },
    }
    assert(out@ =~= gap_terms(
        source_mode,
        tree.nodes@,
        upper,
        upper_path@,
        lower,
        lower_path@,
    ));
    out
}

/// Between two blocks of one container only their own margins count.
pub proof fn law_siblings_meet_at_their_own_margins(
    nodes: Seq<PresentationNode>,
    above: Seq<usize>,
    upper: GapBlock,
    lower: GapBlock,
    a: usize,
    b: usize,
)
    requires
        a != b,
    ensures
        gap_terms(false, nodes, upper, above.push(a), Some(lower), above.push(b)) == seq![
            leaf_margin(nodes, a as int, upper, true),
            leaf_margin(nodes, b as int, lower, false),
        ],
{
    let left = above.push(a);
    let right = above.push(b);
    lemma_common_prefix_steps(left, right, above.len() as int, 0);
    let n = above.len() as int;
    assert(common_steps(left, right, n) == n);
    assert(container_margins(nodes, left, n, n, true) =~= Seq::empty());
    assert(container_margins(nodes, right, n, n, false) =~= Seq::empty());
    assert(gap_terms(false, nodes, upper, left, Some(lower), right) =~= seq![
        leaf_margin(nodes, a as int, upper, true),
        leaf_margin(nodes, b as int, lower, false),
    ]);
}

proof fn lemma_common_prefix_steps(a: Seq<usize>, b: Seq<usize>, count: int, from: int)
    requires
        0 <= from <= count <= a.len(),
        count <= b.len(),
        forall|k: int| 0 <= k < count ==> a[k] == b[k],
    ensures
        common_steps(a, b, from) == common_steps(a, b, count),
    decreases count - from,
{
    if from < count {
        lemma_common_prefix_steps(a, b, count, from + 1);
    }
}

/// Nothing keeps the edges of a quotation apart from what is in it: the first child has no
/// margin above and the last none below, be it a block or a quotation itself.
pub proof fn law_quotation_fits_its_content(
    nodes: Seq<PresentationNode>,
    id: usize,
    quote: usize,
    block: GapBlock,
)
    requires
        id < nodes.len(),
        quote < nodes.len(),
        nodes[id as int].parent == Some(quote),
        nodes[quote as int].kind == PresentationKind::Quote,
        nodes[quote as int].children@.len() > 0,
    ensures
        nodes[quote as int].children@[0] == id ==> leaf_margin(nodes, id as int, block, false)
            == MarginTerm::Zero && quote_rule(nodes, id as int, false) == QuoteMargin::Zero,
        nodes[quote as int].children@.last() == id ==> leaf_margin(nodes, id as int, block, true)
            == MarginTerm::Zero && quote_rule(nodes, id as int, true) == QuoteMargin::Zero,
{
}

/// A quotation that stands in no item and is neither first nor last in a quotation has the
/// margins of quotations on both sides.
pub proof fn law_free_quotation_has_its_own_margins(nodes: Seq<PresentationNode>, id: usize)
    requires
        id < nodes.len(),
        nodes[id as int].parent is None,
    ensures
        quote_rule(nodes, id as int, false) == QuoteMargin::Before,
        quote_rule(nodes, id as int, true) == QuoteMargin::After,
{
}

/// Only outermost lists keep a distance of their own: one that stands in an item adds
/// nothing, and neither does an item. A quotation always adds its margin.
pub proof fn law_only_outermost_lists_add_a_margin(
    nodes: Seq<PresentationNode>,
    id: usize,
    after: bool,
)
    requires
        id < nodes.len(),
        nodes[id as int].parent matches Some(p) ==> p < nodes.len(),
    ensures
        nodes[id as int].kind == PresentationKind::ListItem ==> container_margin(
            nodes,
            id as int,
            after,
        ) is None,
        nodes[id as int].kind == PresentationKind::List ==> (container_margin(
            nodes,
            id as int,
            after,
        ) is None <==> (nodes[id as int].parent matches Some(p) && nodes[p as int].kind
            == PresentationKind::ListItem)),
        nodes[id as int].kind == PresentationKind::Quote ==> container_margin(
            nodes,
            id as int,
            after,
        ) is Some,
{
}

/// The levels one to six of headings have margins of their own, in that order. Code has the
/// margins of code, whichever way it is written, and nothing else has.
pub proof fn law_margins_by_kind(kind: BlockKind)
    ensures
        kind matches BlockKind::Heading { level } ==> (margin_of(kind) matches BlockMargin::Heading {
            index,
        } && (1 <= level <= 6 ==> index + 1 == level) && index <= 5),
        code_block(kind) <==> margin_of(kind) == BlockMargin::Code,
{
}

} // verus!
