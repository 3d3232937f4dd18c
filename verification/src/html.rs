//! HTML fragments inside a document: their nodes, tags and cells.
use crate::grid::SourceSpan;
use crate::text::{boundary, byte_len, same_text, sliceable, text_len};
use vstd::prelude::*;
use vstd::string::*;
use vstd::utf8::*;

verus! {

/// An attribute of a tag, from its name to the end of its value.
#[derive(Debug)]
pub struct HtmlAttribute {
    pub name: String,
    pub source: SourceSpan,
    /// The value without its quotes.
    pub value: Option<SourceSpan>,
}

/// An opening or a closing tag. The name is in lower case.
#[derive(Debug)]
pub struct HtmlTag {
    pub name: String,
    pub source: SourceSpan,
    pub attributes: Vec<HtmlAttribute>,
}

/// What a node is.
#[derive(Debug)]
pub enum HtmlNodeKind {
    Text,
    Comment,
    Element { opening: HtmlTag, closing: Option<HtmlTag> },
}

/// A node of a fragment, with its whole source. A parent comes before its
/// children.
#[derive(Debug)]
pub struct HtmlNode {
    pub source: SourceSpan,
    pub parent: Option<usize>,
    pub children: Vec<usize>,
    pub kind: HtmlNodeKind,
    /// Whether the element was understood, with the number that a list starts at.
    pub resolved: bool,
    pub start: Option<u64>,
}

/// How the content of a cell is aligned.
#[derive(Clone, Copy, Debug, PartialEq, Eq, Structural)]
pub enum HtmlAlignment {
    Left,
    Center,
    Right,
    Justify,
}

/// One block-level part of a cell: its source, and the node that it stands for.
#[derive(Clone, Copy, Debug, PartialEq, Eq, Structural)]
pub struct HtmlPart {
    pub owner: Option<usize>,
    pub source: SourceSpan,
}

/// A formula: its whole source, and its body between the identifying tags.
#[derive(Clone, Copy, Debug, PartialEq, Eq, Structural)]
pub struct HtmlMathSpan {
    pub source: SourceSpan,
    pub content: SourceSpan,
}

/// What is known of one HTML region.
#[derive(Debug)]
pub struct HtmlModel {
    pub nodes: Vec<HtmlNode>,
    /// The parts of each cell, in order.
    pub cell_parts: Vec<Vec<HtmlPart>>,
    pub math: Vec<HtmlMathSpan>,
    pub footnotes: Vec<SourceSpan>,
    /// Whether the fragment was understood without reservation.
    pub understood: bool,
}

/// Whether `span` can be sliced out of `text`.
pub open spec fn span_wf(text: Seq<char>, span: SourceSpan) -> bool {
    sliceable(text, span.start as int, span.end as int)
}

/// Whether `inner` lies in `outer`.
pub open spec fn span_in(outer: SourceSpan, inner: SourceSpan) -> bool {
    outer.start <= inner.start && inner.end <= outer.end
}

/// Whether a byte is one of the white space characters of ASCII.
pub open spec fn ascii_blank(byte: u8) -> bool {
    byte == 0x20 || byte == 0x09 || byte == 0x0a || byte == 0x0c || byte == 0x0d
}

/// Whether an attribute lies inside its tag, holds its value and does not end in
/// white space.
pub open spec fn attribute_wf(text: Seq<char>, tag: SourceSpan, attribute: HtmlAttribute) -> bool {
    let source = attribute.source;
    &&& span_wf(text, source)
    &&& tag.start < source.start < source.end < tag.end
    &&& !ascii_blank(encode_utf8(text)[source.end - 1])
    &&& attribute.value matches Some(value) ==> span_wf(text, value) && span_in(source, value)
}

/// Whether an opening tag starts with a bracket and its name, ends in a bracket,
/// and holds its attributes in order.
pub open spec fn tag_wf(text: Seq<char>, tag: HtmlTag) -> bool {
    let attributes = tag.attributes@;
    let name_end = tag.source.start + 1 + byte_len(tag.name@);
    &&& span_wf(text, tag.source)
    &&& name_end < tag.source.end
    &&& encode_utf8(text)[tag.source.end - 1] == 0x3e
    &&& boundary(text, tag.source.start + 1)
    &&& boundary(text, name_end)
    &&& forall|i: int|
        0 <= i < attributes.len() ==> attribute_wf(text, tag.source, #[trigger] attributes[i])
    &&& forall|i: int, j: int|
        #![trigger attributes[i], attributes[j]]
        0 <= i < j < attributes.len() ==> attributes[i].source.end <= attributes[j].source.start
}

impl HtmlNode {
    /// Whether the node's source and tags address `text`. An element starts with
    /// its opening tag and ends with its closing tag, if it has one.
    pub open spec fn wf(self, text: Seq<char>) -> bool {
        &&& span_wf(text, self.source)
        &&& match self.kind {
            HtmlNodeKind::Element { opening, closing } => {
                &&& tag_wf(text, opening)
                &&& opening.source.start == self.source.start
                &&& opening.source.end <= self.source.end
                &&& closing matches Some(tag) ==> {
                    &&& span_wf(text, tag.source)
                    &&& tag.source.start < tag.source.end
                    &&& tag.source.end == self.source.end
                    &&& opening.source.end <= tag.source.start
                }
            },
            _ => true,
        }
    }

    /// Whether `inner` lies in the node's content, between its tags.
    pub open spec fn encloses(self, inner: SourceSpan) -> bool {
        match self.kind {
            HtmlNodeKind::Element { opening, closing: Some(closing) } => opening.source.end
                <= inner.start && inner.end <= closing.source.start,
            HtmlNodeKind::Element { opening, closing: None } => opening.source.end <= inner.start
                && inner.end <= self.source.end,
            _ => false,
        }
    }

    /// The opening and the closing tag of an element that has both.
    pub open spec fn tags(self) -> Option<(HtmlTag, HtmlTag)> {
        match self.kind {
            HtmlNodeKind::Element { opening, closing: Some(closing) } => Some((opening, closing)),
            _ => None,
        }
    }
}

/// Whether nodes stand in the order in which they start.
#[verifier::opaque]
pub open spec fn source_ordered(nodes: Seq<HtmlNode>) -> bool {
    forall|i: int, j: int|
        #![trigger nodes[i], nodes[j]]
        0 <= i < j < nodes.len() ==> nodes[i].source.start <= nodes[j].source.start
}

/// Whether the tree of nodes is consistent: nodes stand in source order, and a
/// parent encloses its children and knows them in order.
pub open spec fn tree_wf(nodes: Seq<HtmlNode>) -> bool {
    &&& source_ordered(nodes)
    &&& forall|i: int|
        0 <= i < nodes.len() ==> ((#[trigger] nodes[i]).parent matches Some(p) ==> p < i
            && nodes[p as int].encloses(nodes[i].source))
    &&& forall|i: int, k: int|
        0 <= i < nodes.len() && 0 <= k < nodes[i].children@.len() ==> ({
            let child = #[trigger] nodes[i].children@[k];
            child < nodes.len() && (nodes[child as int].parent matches Some(p) && p == i)
        })
    &&& forall|i: int, j: int, k: int|
        #![trigger nodes[i].children@[j], nodes[i].children@[k]]
        0 <= i < nodes.len() && 0 <= j < k < nodes[i].children@.len()
            ==> nodes[nodes[i].children@[j] as int].source.end
            <= nodes[nodes[i].children@[k] as int].source.start
}

impl HtmlModel {
    /// Whether everything in the model addresses `text`.
    pub open spec fn wf(self, text: Seq<char>) -> bool {
        &&& forall|i: int| 0 <= i < self.nodes@.len() ==> (#[trigger] self.nodes@[i]).wf(text)
        &&& tree_wf(self.nodes@)
        &&& forall|i: int, j: int|
            0 <= i < self.cell_parts@.len() && 0 <= j < self.cell_parts@[i]@.len() ==> ((
            #[trigger] self.cell_parts@[i]@[j]).owner matches Some(owner) ==> owner
                < self.nodes@.len())
        &&& forall|i: int, j: int, k: int|
            #![trigger self.cell_parts@[i]@[j], self.cell_parts@[i]@[k]]
            0 <= i < self.cell_parts@.len() && 0 <= j < k < self.cell_parts@[i]@.len()
                ==> self.cell_parts@[i]@[j].source.end <= self.cell_parts@[i]@[k].source.start
        &&& forall|i: int|
            0 <= i < self.math@.len() ==> span_wf(text, (#[trigger] self.math@[i]).source)
                && span_wf(text, self.math@[i].content)
        &&& forall|i: int|
            0 <= i < self.footnotes@.len() ==> span_wf(text, #[trigger] self.footnotes@[i])
    }
}

/// Whether a tag name is that of a paragraph or a heading.
pub open spec fn paragraph_name(name: Seq<char>) -> bool {
    name == "p"@ || name == "h1"@ || name == "h2"@ || name == "h3"@ || name == "h4"@ || name
        == "h5"@ || name == "h6"@
}

/// Whether a tag name is that of a paragraph or a heading.
pub fn is_paragraph_name(name: &str) -> (r: bool)
    ensures
        r == paragraph_name(name@),
{
    same_text(name, "p") || same_text(name, "h1") || same_text(name, "h2") || same_text(name, "h3")
        || same_text(name, "h4") || same_text(name, "h5") || same_text(name, "h6")
}

/// Whether `inner` lies in `outer`.
pub fn span_contains(outer: SourceSpan, inner: SourceSpan) -> (r: bool)
    ensures
        r == span_in(outer, inner),
{
    outer.start <= inner.start && inner.end <= outer.end
}

/// Whether `span` can be sliced out of `text`.
pub fn span_is_valid(text: &str, span: SourceSpan) -> (r: bool)
    ensures
        r == span_wf(text@, span),
{
    span.start <= span.end && text.is_char_boundary(span.start) && text.is_char_boundary(span.end)
}

fn attribute_is_valid(text: &str, tag: SourceSpan, attribute: &HtmlAttribute) -> (r: bool)
    requires
        span_wf(text@, tag),
    ensures
        r == attribute_wf(text@, tag, *attribute),
{
    let source = attribute.source;
    if !span_is_valid(text, source) || !(tag.start < source.start && source.start < source.end
        && source.end < tag.end) {
        return false;
    }
    proof {
        crate::text::lemma_boundary_bounds(text@, source.end as int);
    }
    let byte = text.as_bytes()[source.end - 1];
    if byte == 0x20 || byte == 0x09 || byte == 0x0a || byte == 0x0c || byte == 0x0d {
        return false;
    }
    match attribute.value {
        Some(value) => span_is_valid(text, value) && span_contains(source, value),
        None => true,
    }
}

/// Whether an opening tag and its attributes address `text`.
pub fn tag_is_valid(text: &str, tag: &HtmlTag) -> (r: bool)
    ensures
        r == tag_wf(text@, *tag),
{
    if !span_is_valid(text, tag.source) {
        return false;
    }
    let name_len = text_len(tag.name.as_str());
    let width = tag.source.end - tag.source.start;
    if width < 2 || name_len >= width - 1 {
        return false;
    }
    proof {
        crate::text::lemma_boundary_bounds(text@, tag.source.end as int);
    }
    if text.as_bytes()[tag.source.end - 1] != 0x3e || !text.is_char_boundary(tag.source.start + 1)
        || !text.is_char_boundary(tag.source.start + 1 + name_len) {
        return false;
    }
    let mut reached: usize = 0;
    let mut i: usize = 0;
    while i < tag.attributes.len()
        invariant
            i <= tag.attributes@.len(),
            span_wf(text@, tag.source),
            forall|k: int|
                0 <= k < i ==> attribute_wf(
                    text@,
                    tag.source,
                    #[trigger] tag.attributes@[k],
                ) && tag.attributes@[k].source.end <= reached,
            forall|j: int, k: int|
                #![trigger tag.attributes@[j], tag.attributes@[k]]
                0 <= j < k < i ==> tag.attributes@[j].source.end
                    <= tag.attributes@[k].source.start,
            i > 0 ==> reached == tag.attributes@[i - 1].source.end,
            i == 0 ==> reached == 0,
        decreases tag.attributes@.len() - i,
    {
        if !attribute_is_valid(text, tag.source, &tag.attributes[i]) {
            assert(!attribute_wf(text@, tag.source, tag.attributes@[i as int]));
            return false;
        }
        if tag.attributes[i].source.start < reached {
            assert(tag.attributes@[i - 1].source.end > tag.attributes@[i as int].source.start);
            return false;
        }
        reached = tag.attributes[i].source.end;
        i += 1;
    }
    true
}

impl HtmlNode {
    fn is_valid(&self, text: &str) -> (r: bool)
        ensures
            r == self.wf(text@),
    {
        if !span_is_valid(text, self.source) {
            return false;
        }
        match &self.kind {
            HtmlNodeKind::Element { opening, closing } => {
                if !tag_is_valid(text, opening) || opening.source.start != self.source.start
                    || opening.source.end > self.source.end {
                    return false;
                }
                match closing {
                    Some(tag) => span_is_valid(text, tag.source) && tag.source.start
                        < tag.source.end && tag.source.end == self.source.end
                        && opening.source.end <= tag.source.start,
                    None => true,
                }
            },
            _ => true,
        }
    }

    fn holds(&self, inner: SourceSpan) -> (r: bool)
        ensures
            r == self.encloses(inner),
    {
        match &self.kind {
            HtmlNodeKind::Element { opening, closing } => match closing {
                Some(tag) => opening.source.end <= inner.start && inner.end <= tag.source.start,
                None => opening.source.end <= inner.start && inner.end <= self.source.end,
            },
            _ => false,
        }
    }
}

/// What [`tree_wf`] asks of the children of node `i`.
spec fn children_wf(nodes: Seq<HtmlNode>, i: int) -> bool {
    &&& forall|k: int|
        0 <= k < nodes[i].children@.len() ==> ({
            let child = #[trigger] nodes[i].children@[k];
            child < nodes.len() && (nodes[child as int].parent matches Some(p) && p == i)
        })
    &&& forall|j: int, k: int|
        #![trigger nodes[i].children@[j], nodes[i].children@[k]]
        0 <= j < k < nodes[i].children@.len() ==> nodes[nodes[i].children@[j] as int].source.end
            <= nodes[nodes[i].children@[k] as int].source.start
}

fn children_are_valid(text: Ghost<Seq<char>>, nodes: &Vec<HtmlNode>, i: usize) -> (r: bool)
    requires
        i < nodes@.len(),
        forall|k: int| 0 <= k < nodes@.len() ==> (#[trigger] nodes@[k]).wf(text@),
    ensures
        r == children_wf(nodes@, i as int),
{
    let ghost children = nodes@[i as int].children@;
    let mut reached: usize = 0;
    let mut k: usize = 0;
    while k < nodes[i].children.len()
        invariant
            i < nodes@.len(),
            children == nodes@[i as int].children@,
            k <= children.len(),
            forall|n: int| 0 <= n < nodes@.len() ==> (#[trigger] nodes@[n]).wf(text@),
            forall|j: int|
                0 <= j < k ==> ({
                    let child = #[trigger] children[j];
                    child < nodes@.len() && (nodes@[child as int].parent matches Some(p) && p == i)
                        && nodes@[child as int].source.end <= reached
                }),
            forall|j: int, m: int|
                #![trigger children[j], children[m]]
                0 <= j < m < k ==> nodes@[children[j] as int].source.end
                    <= nodes@[children[m] as int].source.start,
            k > 0 ==> reached == nodes@[children[k - 1] as int].source.end,
            k == 0 ==> reached == 0,
        decreases children.len() - k,
    {
        let child = nodes[i].children[k];
        assert(children[k as int] == child);
        if child >= nodes.len() {
            return false;
        }
        match nodes[child].parent {
            Some(p) => {
                if p != i {
                    return false;
                }
            },
            None => {
                return false;
            },
        }
        if nodes[child].source.start < reached {
            assert(nodes@[children[k - 1] as int].source.end
                > nodes@[children[k as int] as int].source.start);
            return false;
        }
        assert(nodes@[child as int].wf(text@));
        reached = nodes[child].source.end;
        k += 1;
    }
    true
}

fn tree_is_valid(text: Ghost<Seq<char>>, nodes: &Vec<HtmlNode>) -> (r: bool)
    requires
        forall|k: int| 0 <= k < nodes@.len() ==> (#[trigger] nodes@[k]).wf(text@),
    ensures
        r == tree_wf(nodes@),
{
    proof {
        reveal(source_ordered);
    }
    let mut i: usize = 0;
    while i < nodes.len()
        invariant
            i <= nodes@.len(),
            forall|k: int| 0 <= k < nodes@.len() ==> (#[trigger] nodes@[k]).wf(text@),
            forall|j: int, k: int|
                #![trigger nodes@[j], nodes@[k]]
                0 <= j < k < i ==> nodes@[j].source.start <= nodes@[k].source.start,
            forall|k: int|
                0 <= k < i ==> ((#[trigger] nodes@[k]).parent matches Some(p) ==> p < k
                    && nodes@[p as int].encloses(nodes@[k].source)),
            forall|k: int| 0 <= k < i ==> #[trigger] children_wf(nodes@, k),
        decreases nodes@.len() - i,
    {
        reveal(source_ordered);
        if i > 0 && nodes[i].source.start < nodes[i - 1].source.start {
            assert(nodes@[i - 1].source.start > nodes@[i as int].source.start);
            return false;
        }
        if let Some(p) = nodes[i].parent {
            if p >= i {
                assert(nodes@[i as int].parent == Some(p));
                return false;
            }
            if !nodes[p].holds(nodes[i].source) {
                assert(nodes@[i as int].parent == Some(p));
                return false;
            }
        }
        if !children_are_valid(text, nodes, i) {
            assert(!children_wf(nodes@, i as int));
            proof {
                if tree_wf(nodes@) {
                    assert(children_wf(nodes@, i as int)) by {
                        assert forall|k: int| 0 <= k < nodes@[i as int].children@.len() implies ({
                            let child = #[trigger] nodes@[i as int].children@[k];
                            child < nodes@.len() && (nodes@[child as int].parent matches Some(p)
                                && p == i)
                        }) by {}
                    }
                }
            }
            return false;
        }
        i += 1;
    }
    proof {
        assert forall|a: int, k: int|
            0 <= a < nodes@.len() && 0 <= k < nodes@[a].children@.len() implies ({
            let child = #[trigger] nodes@[a].children@[k];
            child < nodes@.len() && (nodes@[child as int].parent matches Some(p) && p == a)
        }) by {
            assert(children_wf(nodes@, a));
        }
        assert forall|a: int, j: int, k: int|
            #![trigger nodes@[a].children@[j], nodes@[a].children@[k]]
            0 <= a < nodes@.len() && 0 <= j < k < nodes@[a].children@.len() implies nodes@[nodes@[a].children@[j] as int].source.end
            <= nodes@[nodes@[a].children@[k] as int].source.start by {
            assert(children_wf(nodes@, a));
        }
    }
    true
}

/// What [`HtmlModel::wf`] asks of the parts of one cell.
spec fn parts_wf(parts: Seq<HtmlPart>, nodes: int) -> bool {
    &&& forall|j: int|
        0 <= j < parts.len() ==> ((#[trigger] parts[j]).owner matches Some(owner) ==> owner < nodes)
    &&& forall|j: int, k: int|
        #![trigger parts[j], parts[k]]
        0 <= j < k < parts.len() ==> parts[j].source.end <= parts[k].source.start
}

fn parts_are_valid(parts: &Vec<HtmlPart>, nodes: usize) -> (r: bool)
    ensures
        r == parts_wf(parts@, nodes as int),
{
    let mut reached: usize = 0;
    let mut from: Ghost<int> = Ghost(0);
    let mut i: usize = 0;
    while i < parts.len()
        invariant
            i <= parts@.len(),
            forall|j: int|
                0 <= j < i ==> ((#[trigger] parts@[j]).owner matches Some(owner) ==> owner < nodes),
            forall|j: int| 0 <= j < i ==> (#[trigger] parts@[j]).source.end <= reached,
            forall|j: int, k: int|
                #![trigger parts@[j], parts@[k]]
                0 <= j < k < i ==> parts@[j].source.end <= parts@[k].source.start,
            reached == 0 || (0 <= from@ < i && parts@[from@].source.end == reached),
        decreases parts@.len() - i,
    {
        let part = parts[i];
        if let Some(owner) = part.owner {
            if owner >= nodes {
                assert(parts@[i as int].owner == Some(owner));
                return false;
            }
        }
        if part.source.start < reached {
            assert(parts@[from@].source.end > parts@[i as int].source.start);
            return false;
        }
        if part.source.end > reached {
            reached = part.source.end;
            proof {
                from@ = i as int;
            }
        }
        i += 1;
    }
    true
}

impl HtmlModel {
    /// Whether everything in the model addresses `text`.
    pub fn is_valid(&self, text: &str) -> (r: bool)
        ensures
            r == self.wf(text@),
    {
        let mut i: usize = 0;
        while i < self.nodes.len()
            invariant
                i <= self.nodes@.len(),
                forall|k: int| 0 <= k < i ==> (#[trigger] self.nodes@[k]).wf(text@),
            decreases self.nodes@.len() - i,
        {
            if !self.nodes[i].is_valid(text) {
                assert(!self.nodes@[i as int].wf(text@));
                return false;
            }
            i += 1;
        }
        if !tree_is_valid(Ghost(text@), &self.nodes) {
            return false;
        }
        self.cells_are_valid() && self.spans_are_valid(text)
    }

    fn cells_are_valid(&self) -> (r: bool)
        ensures
            r == ({
                &&& forall|i: int, j: int|
                    0 <= i < self.cell_parts@.len() && 0 <= j < self.cell_parts@[i]@.len() ==> ((
                    #[trigger] self.cell_parts@[i]@[j]).owner matches Some(owner) ==> owner
                        < self.nodes@.len())
                &&& forall|i: int, j: int, k: int|
                    #![trigger self.cell_parts@[i]@[j], self.cell_parts@[i]@[k]]
                    0 <= i < self.cell_parts@.len() && 0 <= j < k < self.cell_parts@[i]@.len()
                        ==> self.cell_parts@[i]@[j].source.end
                        <= self.cell_parts@[i]@[k].source.start
            }),
    {
        let count = self.nodes.len();
        let mut i: usize = 0;
        while i < self.cell_parts.len()
            invariant
                i <= self.cell_parts@.len(),
                count == self.nodes@.len(),
                forall|k: int|
                    0 <= k < i ==> parts_wf((#[trigger] self.cell_parts@[k])@, count as int),
            decreases self.cell_parts@.len() - i,
        {
            if !parts_are_valid(&self.cell_parts[i], count) {
                assert(!parts_wf(self.cell_parts@[i as int]@, count as int));
                return false;
            }
            i += 1;
        }
        proof {
            assert forall|a: int, j: int|
                0 <= a < self.cell_parts@.len() && 0 <= j < self.cell_parts@[a]@.len() implies ((
            #[trigger] self.cell_parts@[a]@[j]).owner matches Some(owner) ==> owner
                < self.nodes@.len()) by {
                assert(parts_wf(self.cell_parts@[a]@, count as int));
            }
            assert forall|a: int, j: int, k: int|
                #![trigger self.cell_parts@[a]@[j], self.cell_parts@[a]@[k]]
                0 <= a < self.cell_parts@.len() && 0 <= j < k
                    < self.cell_parts@[a]@.len() implies self.cell_parts@[a]@[j].source.end
                <= self.cell_parts@[a]@[k].source.start by {
                assert(parts_wf(self.cell_parts@[a]@, count as int));
            }
        }
        true
    }

    fn spans_are_valid(&self, text: &str) -> (r: bool)
        ensures
            r == ({
                &&& forall|i: int|
                    0 <= i < self.math@.len() ==> span_wf(text@, (#[trigger] self.math@[i]).source)
                        && span_wf(text@, self.math@[i].content)
                &&& forall|i: int|
                    0 <= i < self.footnotes@.len() ==> span_wf(
                        text@,
                        #[trigger] self.footnotes@[i],
                    )
            }),
    {
        let mut i: usize = 0;
        while i < self.math.len()
            invariant
                i <= self.math@.len(),
                forall|k: int|
                    0 <= k < i ==> span_wf(text@, (#[trigger] self.math@[k]).source) && span_wf(
                        text@,
                        self.math@[k].content,
                    ),
            decreases self.math@.len() - i,
        {
            if !span_is_valid(text, self.math[i].source) || !span_is_valid(
                text,
                self.math[i].content,
            ) {
                assert(!(span_wf(text@, self.math@[i as int].source) && span_wf(
                    text@,
                    self.math@[i as int].content,
                )));
                return false;
            }
            i += 1;
        }
        let mut k: usize = 0;
        while k < self.footnotes.len()
            invariant
                k <= self.footnotes@.len(),
                forall|n: int| 0 <= n < k ==> span_wf(text@, #[trigger] self.footnotes@[n]),
            decreases self.footnotes@.len() - k,
        {
            if !span_is_valid(text, self.footnotes[k]) {
                assert(!span_wf(text@, self.footnotes@[k as int]));
                return false;
            }
            k += 1;
        }
        true
    }
}

} // verus!
