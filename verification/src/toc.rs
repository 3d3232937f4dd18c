//! The generated text of a table of contents, and where its lines lead.
use crate::edit::TextBuffer;
use crate::offset::{Revision, TextRange};
use crate::panel::{
    blocks_wf, fold_lines, folded, source_error, source_of, visible_source, PanelBlock, PanelError,
};
use crate::text::{
    byte_len, lemma_encode_concat, lemma_span_middle, push_repeated, repeated, sliceable, span,
    text_len,
};
use crate::visual::VisualOffset;
use vstd::prelude::*;
use vstd::utf8::encode_utf8;

verus! {

/// A heading that the table lists.
#[derive(Clone, Copy, Debug, PartialEq, Eq, Structural)]
pub struct TocHeading {
    pub block: usize,
    /// The heading that this one stands under, by its place in the list.
    pub parent: Option<usize>,
    pub label: TextRange,
}

/// A stretch of the generated text that leads to a heading. Offsets are bytes of
/// that text, not of the source.
#[derive(Clone, Copy, Debug, PartialEq, Eq, Structural)]
pub struct TocLink {
    pub start: usize,
    pub end: usize,
    pub target: TextRange,
}

/// The table of contents of one revision.
#[derive(Debug)]
pub struct TocProjection {
    pub revision: Revision,
    pub text: String,
    pub links: Vec<TocLink>,
}

/// Whether every heading stands behind the one it is under.
pub open spec fn parents_before(headings: Seq<TocHeading>) -> bool {
    forall|i: int|
        0 <= i < headings.len() ==> ((#[trigger] headings[i]).parent matches Some(p) ==> p < i)
}

/// How deep a heading stands in the tree.
pub open spec fn depth_of(headings: Seq<TocHeading>, i: int) -> nat
    decreases i,
{
    match headings[i].parent {
        Some(p) if p < i => depth_of(headings, p as int) + 1,
        _ => 0,
    }
}

/// What stands for a heading: its label on one line, or a word where it has none.
pub open spec fn shown(label: Seq<char>) -> Seq<char> {
    if folded(label).len() == 0 {
        "未命名标题"@
    } else {
        folded(label)
    }
}

/// The label of heading number `i`.
pub open spec fn heading_label(
    text: Seq<char>,
    blocks: Seq<PanelBlock>,
    headings: Seq<TocHeading>,
    i: int,
) -> Seq<char> {
    shown(source_of(text, blocks, headings[i].block, headings[i].label))
}

/// The text before the label of heading number `i`: the lines above, and an indent
/// of two spaces for each level.
pub open spec fn toc_before(
    text: Seq<char>,
    blocks: Seq<PanelBlock>,
    headings: Seq<TocHeading>,
    i: int,
) -> Seq<char>
    decreases i, 1int,
{
    let above = toc_lines(text, blocks, headings, i);
    let line = if above.len() == 0 {
        above
    } else {
        above.push('\n')
    };
    line + repeated("  "@, depth_of(headings, i))
}

/// The lines of the first `count` headings.
pub open spec fn toc_lines(
    text: Seq<char>,
    blocks: Seq<PanelBlock>,
    headings: Seq<TocHeading>,
    count: int,
) -> Seq<char>
    decreases count, 0int,
{
    if count <= 0 {
        Seq::empty()
    } else {
        toc_before(text, blocks, headings, count - 1) + heading_label(
            text,
            blocks,
            headings,
            count - 1,
        )
    }
}

/// The text of the table, with a word where there is no heading.
pub open spec fn toc_text(
    text: Seq<char>,
    blocks: Seq<PanelBlock>,
    headings: Seq<TocHeading>,
) -> Seq<char> {
    let lines = toc_lines(text, blocks, headings, headings.len() as int);
    if lines.len() == 0 {
        "暂无标题"@
    } else {
        lines
    }
}

/// What stops the table from heading `from` on.
pub open spec fn toc_error(
    text: Seq<char>,
    blocks: Seq<PanelBlock>,
    headings: Seq<TocHeading>,
    from: int,
) -> Option<PanelError>
    decreases headings.len() - from,
{
    if from < 0 || from >= headings.len() {
        None
    } else {
        match source_error(text, blocks, headings[from].block, headings[from].label) {
            Some(error) => Some(error),
            None => toc_error(text, blocks, headings, from + 1),
        }
    }
}

/// Whether `link` covers the label of heading number `i`.
pub open spec fn link_of(
    link: TocLink,
    text: Seq<char>,
    blocks: Seq<PanelBlock>,
    headings: Seq<TocHeading>,
    i: int,
) -> bool {
    &&& link.start == byte_len(toc_before(text, blocks, headings, i))
    &&& link.end == byte_len(toc_lines(text, blocks, headings, i + 1))
    &&& link.target == headings[i].label
}

/// Whether links cover some text each, in order and without overlap.
pub open spec fn links_wf(links: Seq<TocLink>) -> bool {
    &&& forall|i: int| 0 <= i < links.len() ==> (#[trigger] links[i]).start < links[i].end
    &&& forall|i: int, j: int|
        0 <= i < j < links.len() ==> (#[trigger] links[i]).end <= (#[trigger] links[j]).start
}

/// A concatenation takes the bytes of both parts.
proof fn lemma_byte_len_concat(a: Seq<char>, b: Seq<char>)
    ensures
        byte_len(a + b) == byte_len(a) + byte_len(b),
        byte_len(a) == 0 <==> a.len() == 0,
        byte_len(b) == 0 <==> b.len() == 0,
{
    lemma_encode_concat(a, b);
    if a.len() > 0 {
        assert(encode_utf8(a).len() > 0);
    }
    if b.len() > 0 {
        assert(encode_utf8(b).len() > 0);
    }
}

/// What stands for a heading is never empty.
proof fn lemma_shown(label: Seq<char>)
    ensures
        shown(label).len() > 0,
{
    reveal_strlit("未命名标题");
}

/// The text before a label takes no fewer bytes than the lines above it, and the
/// label takes some.
proof fn lemma_toc_grows(
    text: Seq<char>,
    blocks: Seq<PanelBlock>,
    headings: Seq<TocHeading>,
    i: int,
)
    requires
        0 <= i,
    ensures
        byte_len(toc_lines(text, blocks, headings, i)) <= byte_len(
            toc_before(text, blocks, headings, i),
        ) < byte_len(toc_lines(text, blocks, headings, i + 1)),
{
    let above = toc_lines(text, blocks, headings, i);
    let line = if above.len() == 0 {
        above
    } else {
        above.push('\n')
    };
    lemma_byte_len_concat(above, seq!['\n']);
    assert(above.push('\n') =~= above + seq!['\n']);
    lemma_byte_len_concat(line, repeated("  "@, depth_of(headings, i)));
    let label = heading_label(text, blocks, headings, i);
    lemma_shown(source_of(text, blocks, headings[i].block, headings[i].label));
    lemma_byte_len_concat(toc_before(text, blocks, headings, i), label);
}

/// The lines of fewer headings begin those of more.
proof fn lemma_lines_prefix(
    text: Seq<char>,
    blocks: Seq<PanelBlock>,
    headings: Seq<TocHeading>,
    fewer: int,
    count: int,
) -> (rest: Seq<char>)
    requires
        0 <= fewer <= count,
    ensures
        toc_lines(text, blocks, headings, count) == toc_lines(text, blocks, headings, fewer)
            + rest,
    decreases count - fewer,
{
    let start = toc_lines(text, blocks, headings, fewer);
    if fewer == count {
        assert(start + Seq::<char>::empty() =~= start);
        Seq::empty()
    } else {
        let rest = lemma_lines_prefix(text, blocks, headings, fewer, count - 1);
        let above = toc_lines(text, blocks, headings, count - 1);
        let all = toc_lines(text, blocks, headings, count);
        let added = all.skip(above.len() as int);
        assert(all =~= above + added);
        assert(above + added =~= start + (rest + added));
        rest + added
    }
}

/// The text under every link is the label of its heading.
pub proof fn law_links_cover_labels(
    text: Seq<char>,
    blocks: Seq<PanelBlock>,
    headings: Seq<TocHeading>,
    link: TocLink,
    i: int,
)
    requires
        0 <= i < headings.len(),
        link_of(link, text, blocks, headings, i),
    ensures
        sliceable(toc_text(text, blocks, headings), link.start as int, link.end as int),
        span(toc_text(text, blocks, headings), link.start as int, link.end as int)
            == heading_label(text, blocks, headings, i),
{
    let n = headings.len() as int;
    let rest = lemma_lines_prefix(text, blocks, headings, i + 1, n);
    let before = toc_before(text, blocks, headings, i);
    let label = heading_label(text, blocks, headings, i);
    assert(toc_lines(text, blocks, headings, i + 1) == before + label);
    lemma_span_middle(before, label, rest);
    lemma_shown(source_of(text, blocks, headings[i].block, headings[i].label));
    assert(toc_lines(text, blocks, headings, n).len() > 0);
}

/// Appends the line of one heading.
fn push_heading(out: &mut String, depth: usize, label: &str) -> (r: (usize, usize))
    ensures
        ({
            let line = if old(out)@.len() == 0 {
                old(out)@
            } else {
                old(out)@.push('\n')
            };
            let before = line + repeated("  "@, depth as nat);
            &&& final(out)@ == before + shown(label@)
            &&& r.0 == byte_len(before)
            &&& r.1 == byte_len(final(out)@)
        }),
{
    proof {
        lemma_byte_len_concat(out@, Seq::empty());
    }
    if text_len(out.as_str()) > 0 {
        out.push('\n');
    }
    push_repeated(out, "  ", depth);
    let start = text_len(out.as_str());
    let line = fold_lines(label);
    proof {
        lemma_byte_len_concat(line@, Seq::empty());
    }
    if text_len(line.as_str()) == 0 {
        out.push_str("未命名标题");
    } else {
        out.push_str(line.as_str());
    }
    (start, text_len(out.as_str()))
}

impl TocProjection {
    /// Whether the projection is the table of these headings.
    pub open spec fn shows(
        self,
        snapshot: TextBuffer,
        headings: Seq<TocHeading>,
        blocks: Seq<PanelBlock>,
    ) -> bool {
        &&& self.revision == snapshot.revision
        &&& self.text@ == toc_text(snapshot.text@, blocks, headings)
        &&& self.links@.len() == headings.len()
        &&& forall|k: int|
            0 <= k < headings.len() ==> link_of(
                #[trigger] self.links@[k],
                snapshot.text@,
                blocks,
                headings,
                k,
            )
        &&& links_wf(self.links@)
    }

    /// Writes the table of the headings.
    pub fn build(
        snapshot: &TextBuffer,
        headings: &[TocHeading],
        blocks: &[PanelBlock],
    ) -> (r: Result<TocProjection, PanelError>)
        requires
            blocks_wf(snapshot.text@, blocks@),
            parents_before(headings@),
        ensures
            match toc_error(snapshot.text@, blocks@, headings@, 0) {
                Some(error) => r == Err::<TocProjection, PanelError>(error),
                None => r is Ok && r->Ok_0.shows(*snapshot, headings@, blocks@),
            },
    {
        let source = snapshot.as_str();
        let mut text = String::new();
        let mut links: Vec<TocLink> = Vec::new();
        let mut depths: Vec<usize> = Vec::new();
        let count = headings.len();
        let mut i: usize = 0;
        while i < count
            invariant
                i <= count == headings@.len(),
                source@ == snapshot.text@,
                blocks_wf(source@, blocks@),
                parents_before(headings@),
                toc_error(source@, blocks@, headings@, i as int) == toc_error(
                    snapshot.text@,
                    blocks@,
                    headings@,
                    0,
                ),
                text@ == toc_lines(source@, blocks@, headings@, i as int),
                depths@.len() == i,
                forall|k: int|
                    0 <= k < i ==> (#[trigger] depths@[k]) == depth_of(headings@, k) && depths@[k]
                        <= k,
                links@.len() == i,
                forall|k: int|
                    0 <= k < i ==> link_of(
                        #[trigger] links@[k],
                        source@,
                        blocks@,
                        headings@,
                        k,
                    ),
                links_wf(links@),
                forall|k: int|
                    0 <= k < i ==> (#[trigger] links@[k]).end <= byte_len(
                        toc_lines(source@, blocks@, headings@, i as int),
                    ),
            decreases count - i,
        {
            let heading = headings[i];
            assert(headings@[i as int] == heading);
            let raw = match visible_source(source, blocks, heading.block, heading.label) {
                Ok(raw) => raw,
                Err(error) => return Err(error),
            };
            let depth: usize = match heading.parent {
                Some(parent) => depths[parent] + 1,
                None => 0,
            };
            depths.push(depth);
            proof {
                lemma_toc_grows(source@, blocks@, headings@, i as int);
            }
            let (start, end) = push_heading(&mut text, depth, raw.as_str());
            assert(text@ == toc_lines(source@, blocks@, headings@, i + 1));
            links.push(TocLink { start, end, target: heading.label });
            i += 1;
        }
        proof {
            lemma_byte_len_concat(text@, Seq::empty());
        }
        if text_len(text.as_str()) == 0 {
            text.push_str("暂无标题");
            assert(text@ =~= "暂无标题"@);
        }
        Ok(TocProjection { revision: snapshot.revision(), text, links })
    }

    /// The heading under a byte of the generated text.
    pub fn target_at(&self, visual_byte: usize) -> (r: Option<TextRange>)
        requires
            links_wf(self.links@),
        ensures
            match r {
                Some(target) => exists|k: int|
                    0 <= k < self.links@.len() && (#[trigger] self.links@[k]).start <= visual_byte
                        < self.links@[k].end && self.links@[k].target == target,
                None => forall|k: int|
                    0 <= k < self.links@.len() ==> !((#[trigger] self.links@[k]).start
                        <= visual_byte < self.links@[k].end),
            },
    {
        let mut low: usize = 0;
        let mut high: usize = self.links.len();
        while low < high
            invariant
                links_wf(self.links@),
                low <= high <= self.links@.len(),
                forall|k: int| 0 <= k < low ==> (#[trigger] self.links@[k]).end <= visual_byte,
                forall|k: int|
                    high <= k < self.links@.len() ==> (#[trigger] self.links@[k]).end > visual_byte,
            decreases high - low,
        {
            let middle = low + (high - low) / 2;
            if self.links[middle].end <= visual_byte {
                assert forall|k: int| 0 <= k < middle + 1 implies (#[trigger] self.links@[k]).end
                    <= visual_byte by {
                    if k < middle {
                        assert(self.links@[k].end <= self.links@[middle as int].start);
                    }
                }
                low = middle + 1;
            } else {
                assert forall|k: int| middle <= k < self.links@.len() implies (
                #[trigger] self.links@[k]).end > visual_byte by {
                    if k > middle {
                        assert(self.links@[middle as int].end <= self.links@[k].start);
                    }
                }
                high = middle;
            }
        }
        if low < self.links.len() && self.links[low].start <= visual_byte {
            assert(self.links@[low as int].end > visual_byte);
            Some(self.links[low].target)
        } else {
            assert forall|k: int| 0 <= k < self.links@.len() implies !((
            #[trigger] self.links@[k]).start <= visual_byte < self.links@[k].end) by {
                if k > low {
                    assert(self.links@[low as int].end <= self.links@[k].start);
                }
            }
            None
        }
    }

    /// The heading under a hit on the block that shows the table. `revision` is that
    /// of the block's text, `base` the visible offset of the marker's start in it;
    /// `content_source` and `content_visual` say what was hit.
    pub fn target_for_hit(
        &self,
        marker: TextRange,
        revision: Revision,
        base: VisualOffset,
        content_source: Option<TextRange>,
        content_visual: Option<VisualOffset>,
    ) -> (r: Option<TextRange>)
        requires
            links_wf(self.links@),
        ensures
            r is Some ==> revision == self.revision && content_source == Some(marker)
                && content_visual is Some,
            revision == self.revision && content_source == Some(marker) && content_visual is Some
                ==> ({
                let at = content_visual->Some_0.value - base.value;
                match r {
                    Some(target) => exists|k: int|
                        0 <= k < self.links@.len() && (#[trigger] self.links@[k]).start <= at
                            < self.links@[k].end && self.links@[k].target == target,
                    None => forall|k: int|
                        0 <= k < self.links@.len() ==> !((#[trigger] self.links@[k]).start <= at
                            < self.links@[k].end),
                }
            }),
    {
        if revision != self.revision || content_source != Some(marker) {
            return None;
        }
        let hit = match content_visual {
            Some(hit) => hit,
            None => return None,
        };
        if hit.value < base.value {
            return None;
        }
        let offset: u64 = hit.value - base.value;
        if offset > usize::MAX as u64 {
            return None;
        }
        self.target_at(offset as usize)
    }
}

/// The table of the newest revision that was asked for, kept together with why it
/// could not be made.
#[derive(Debug)]
pub struct TocCache {
    pub revision: Option<Revision>,
    pub value: Option<Result<TocProjection, PanelError>>,
}

impl TocCache {
    /// A cache that holds nothing.
    pub fn new() -> (r: TocCache)
        ensures
            r.revision is None,
            r.value is None,
    {
        TocCache { revision: None, value: None }
    }

    /// Turns to a revision. What was kept of another one is dropped.
    pub fn bind(&mut self, revision: Revision)
        ensures
            final(self).revision == Some(revision),
            final(self).value == (if old(self).revision == Some(revision) {
                old(self).value
            } else {
                None
            }),
    {
        if self.revision != Some(revision) {
            self.revision = Some(revision);
            self.value = None;
        }
    }

    /// The table of the snapshot's revision, made on the first call for it.
    pub fn get(
        &mut self,
        snapshot: &TextBuffer,
        headings: &[TocHeading],
        blocks: &[PanelBlock],
    ) -> (r: Result<&TocProjection, PanelError>)
        requires
            blocks_wf(snapshot.text@, blocks@),
            parents_before(headings@),
        ensures
            final(self).revision == Some(snapshot.revision),
            final(self).value is Some,
            old(self).revision == Some(snapshot.revision) && old(self).value is Some ==> (
            *final(self) == *old(self)),
            old(self).revision != Some(snapshot.revision) || old(self).value is None ==> match toc_error(
                snapshot.text@,
                blocks@,
                headings@,
                0,
            ) {
                Some(error) => final(self).value->Some_0 == Err::<TocProjection, PanelError>(error),
                None => final(self).value->Some_0 is Ok && final(self).value->Some_0->Ok_0.shows(
                    *snapshot,
                    headings@,
                    blocks@,
                ),
            },
            match final(self).value->Some_0 {
                Ok(table) => r is Ok && *r->Ok_0 == table,
                Err(error) => r == Err::<&TocProjection, PanelError>(error),
            },
    {
        self.bind(snapshot.revision());
        if self.value.is_none() {
            self.value = Some(TocProjection::build(snapshot, headings, blocks));
        }
        match self.value.as_ref().unwrap() {
            Ok(table) => Ok(table),
            Err(error) => Err(*error),
        }
    }
}

/// Every heading has a line of its own: a line feed behind the lines before it, two spaces
/// for every heading that it stands under, and its label. At the root there are none, and
/// one more level is two more.
pub proof fn law_heading_has_its_own_line(
    text: Seq<char>,
    blocks: Seq<PanelBlock>,
    headings: Seq<TocHeading>,
    i: int,
) -> (indent: Seq<char>)
    requires
        parents_before(headings),
        0 <= i < headings.len(),
    ensures
        toc_lines(text, blocks, headings, i + 1) == toc_lines(text, blocks, headings, i) + (if i
            == 0 {
            seq![]
        } else {
            seq!['\n']
        }) + indent + heading_label(text, blocks, headings, i),
        indent.len() == 2 * depth_of(headings, i),
        forall|k: int| 0 <= k < indent.len() ==> indent[k] == ' ',
        headings[i].parent is None ==> indent.len() == 0,
        headings[i].parent matches Some(p) ==> indent.len() == 2 * depth_of(headings, p as int)
            + 2,
{
    let above = toc_lines(text, blocks, headings, i);
    let depth = depth_of(headings, i);
    let indent = repeated("  "@, depth);
    lemma_indent(depth);
    if i > 0 {
        lemma_shown(source_of(text, blocks, headings[i - 1].block, headings[i - 1].label));
        assert(above.len() > 0);
        assert(toc_lines(text, blocks, headings, i + 1) =~= above + seq!['\n'] + indent
            + heading_label(text, blocks, headings, i));
    } else {
        assert(toc_lines(text, blocks, headings, i + 1) =~= above + seq![] + indent
            + heading_label(text, blocks, headings, i));
    }
    indent
}

proof fn lemma_indent(depth: nat)
    ensures
        repeated("  "@, depth).len() == 2 * depth,
        forall|k: int|
            0 <= k < repeated("  "@, depth).len() ==> repeated("  "@, depth)[k] == ' ',
    decreases depth,
{
    reveal_strlit("  ");
    if depth > 0 {
        lemma_indent((depth - 1) as nat);
    }
}

} // verus!
