//! The headings of a document as a tree.
use crate::offset::{Revision, TextRange};
use vstd::prelude::*;

verus! {

/// A heading's level and the range of its text.
#[derive(Clone, Copy, Debug, PartialEq, Eq, Structural)]
pub struct Heading {
    /// From one, the topmost.
    pub level: u8,
    /// The text without markers.
    pub label_range: TextRange,
}

/// What the outline reads of a block of the document.
#[derive(Clone, Copy, Debug, PartialEq, Eq, Structural)]
pub struct OutlineBlock {
    pub range: TextRange,
    /// `None` for a block that is no heading.
    pub heading: Option<Heading>,
}

/// A heading in the outline.
#[derive(Clone, Copy, Debug, PartialEq, Eq, Structural)]
pub struct OutlineItem {
    pub index: usize,
    pub parent: Option<usize>,
    pub level: u8,
    pub block: usize,
    pub source_range: TextRange,
    pub label_range: TextRange,
}

impl OutlineItem {
    /// The place among the items of the snapshot.
    pub fn index(self) -> (r: usize)
        ensures
            r == self.index,
    {
        self.index
    }

    /// The item that this one stands under, by index; `None` at the root.
    pub fn parent(self) -> (r: Option<usize>)
        ensures
            r == self.parent,
    {
        self.parent
    }

    /// The level as it is written.
    pub fn level(self) -> (r: u8)
        ensures
            r == self.level,
    {
        self.level
    }

    /// The block that holds the heading.
    pub fn block(self) -> (r: usize)
        ensures
            r == self.block,
    {
        self.block
    }

    /// The whole block, markers included.
    pub fn source_range(self) -> (r: TextRange)
        ensures
            r == self.source_range,
    {
        self.source_range
    }

    /// The heading's text.
    pub fn label_range(self) -> (r: TextRange)
        ensures
            r == self.label_range,
    {
        self.label_range
    }
}

/// The nearest of the first `count` items that has a level below `level`.
pub open spec fn nearest(items: Seq<OutlineItem>, count: int, level: u8) -> Option<usize>
    decreases count,
{
    if count <= 0 || count > items.len() {
        None
    } else if items[count - 1].level < level {
        Some((count - 1) as usize)
    } else {
        nearest(items, count - 1, level)
    }
}

/// The outline of `blocks`: its headings in document order, each under the nearest
/// heading before it that has a smaller level. A skipped level stays skipped.
pub open spec fn outline(blocks: Seq<OutlineBlock>) -> Seq<OutlineItem>
    decreases blocks.len(),
{
    if blocks.len() == 0 {
        Seq::empty()
    } else {
        let before = outline(blocks.drop_last());
        match blocks.last().heading {
            None => before,
            Some(heading) => before.push(
                OutlineItem {
                    index: before.len() as usize,
                    parent: nearest(before, before.len() as int, heading.level),
                    level: heading.level,
                    block: (blocks.len() - 1) as usize,
                    source_range: blocks.last().range,
                    label_range: heading.label_range,
                },
            ),
        }
    }
}

/// Whether every item stands at its index, under the nearest item before it of a
/// smaller level.
pub open spec fn linked(items: Seq<OutlineItem>) -> bool {
    forall|i: int|
        0 <= i < items.len() ==> (#[trigger] items[i]).index == i && items[i].parent == nearest(
            items,
            i,
            items[i].level,
        )
}

/// The nearest item is before the others, of a smaller level, and all items behind
/// it are of no smaller level.
proof fn lemma_nearest(items: Seq<OutlineItem>, count: int, level: u8)
    requires
        0 <= count <= items.len() <= usize::MAX,
    ensures
        match nearest(items, count, level) {
            Some(p) => p < count && items[p as int].level < level && forall|k: int|
                p < k < count ==> (#[trigger] items[k]).level >= level,
            None => forall|k: int| 0 <= k < count ==> (#[trigger] items[k]).level >= level,
        },
    decreases count,
{
    if count > 0 && items[count - 1].level >= level {
        lemma_nearest(items, count - 1, level);
    }
}

/// The nearest item depends only on the items that are looked at.
proof fn lemma_nearest_prefix(
    items: Seq<OutlineItem>,
    longer: Seq<OutlineItem>,
    count: int,
    level: u8,
)
    requires
        0 <= count <= items.len() <= longer.len(),
        forall|k: int| 0 <= k < count ==> items[k] == longer[k],
    ensures
        nearest(items, count, level) == nearest(longer, count, level),
    decreases count,
{
    if count > 0 {
        lemma_nearest_prefix(items, longer, count - 1, level);
    }
}

/// Items of no smaller level can be skipped.
proof fn lemma_nearest_skips(items: Seq<OutlineItem>, from: int, count: int, level: u8)
    requires
        0 <= from <= count <= items.len(),
        forall|k: int| from <= k < count ==> (#[trigger] items[k]).level >= level,
    ensures
        nearest(items, count, level) == nearest(items, from, level),
    decreases count - from,
{
    if from < count {
        assert(items[count - 1].level >= level);
        lemma_nearest_skips(items, from, count - 1, level);
    }
}

/// In an outline every item stands at its index, under the nearest item before it of
/// a smaller level.
pub proof fn law_outline_is_linked(blocks: Seq<OutlineBlock>)
    requires
        blocks.len() <= usize::MAX,
    ensures
        outline(blocks).len() <= blocks.len(),
        linked(outline(blocks)),
    decreases blocks.len(),
{
    if blocks.len() > 0 {
        law_outline_is_linked(blocks.drop_last());
        let before = outline(blocks.drop_last());
        let after = outline(blocks);
        assert forall|i: int| 0 <= i < after.len() implies (#[trigger] after[i]).index == i
            && after[i].parent == nearest(after, i, after[i].level) by {
            if i < before.len() {
                assert(after[i] == before[i]);
            }
            lemma_nearest_prefix(before, after, i, after[i].level);
        }
    }
}

/// Items under one heading follow it without a break: an item between a heading and
/// one that stands under it stands under that heading too, or under an item behind it.
pub proof fn law_outline_is_preorder(items: Seq<OutlineItem>, i: int, k: int)
    requires
        linked(items),
        items.len() <= usize::MAX,
        0 <= i < items.len(),
        items[i].parent matches Some(p) && p < k < i,
    ensures
        items[i].parent->Some_0 < i,
        items[items[i].parent->Some_0 as int].level < items[i].level,
        items[k].parent matches Some(q) && items[i].parent->Some_0 <= q < k,
{
    lemma_nearest(items, i, items[i].level);
    lemma_nearest(items, k, items[k].level);
    let p = items[i].parent->Some_0 as int;
    assert(items[k].level >= items[i].level);
    match items[k].parent {
        Some(q) => {
            if q < p {
                assert(items[p].level >= items[k].level);
            }
        },
        None => {
            assert(items[p].level >= items[k].level);
        },
    }
}

/// The outline of one revision.
#[derive(Debug)]
pub struct OutlineSnapshot {
    pub revision: Revision,
    pub items: Vec<OutlineItem>,
}

/// Finds the nearest item of a level below `level`, going up from heading to heading.
fn find_parent(items: &Vec<OutlineItem>, level: u8) -> (r: Option<usize>)
    requires
        linked(items@),
    ensures
        r == nearest(items@, items@.len() as int, level),
{
    let count = items.len();
    let mut candidate: Option<usize> = if count == 0 {
        None
    } else {
        Some(count - 1)
    };
    loop
        invariant
            linked(items@),
            items@.len() <= usize::MAX,
            candidate matches Some(c) ==> c < items@.len(),
            nearest(items@, items@.len() as int, level) == match candidate {
                Some(c) => nearest(items@, c + 1, level),
                None => None,
            },
        decreases match candidate {
            Some(c) => c + 1,
            None => 0,
        },
    {
        match candidate {
            None => return None,
            Some(c) => {
                if items[c].level < level {
                    return Some(c);
                }
                proof {
                    lemma_nearest(items@, c as int, items@[c as int].level);
                    match items@[c as int].parent {
                        Some(p) => {
                            lemma_nearest_skips(items@, p + 1, c + 1, level);
                        },
                        None => {
                            lemma_nearest_skips(items@, 0, c + 1, level);
                        },
                    }
                }
                candidate = items[c].parent;
            },
        }
    }
}

impl OutlineSnapshot {
    /// Builds the outline of the blocks of one revision.
    pub fn from_document(revision: Revision, blocks: &[OutlineBlock]) -> (r: OutlineSnapshot)
        ensures
            r.revision == revision,
            r.items@ == outline(blocks@),
            linked(r.items@),
    {
        let mut items: Vec<OutlineItem> = Vec::new();
        let count = blocks.len();
        let mut i: usize = 0;
        assert(blocks@.take(0) =~= Seq::empty());
        while i < count
            invariant
                i <= count == blocks@.len(),
                items@ == outline(blocks@.take(i as int)),
            decreases blocks@.len() - i,
        {
            proof {
                law_outline_is_linked(blocks@.take(i as int));
                assert(blocks@.take(i + 1).drop_last() =~= blocks@.take(i as int));
            }
            if let Some(heading) = blocks[i].heading {
                let parent = find_parent(&items, heading.level);
                let index = items.len();
                items.push(
                    OutlineItem {
                        index,
                        parent,
                        level: heading.level,
                        block: i,
                        source_range: blocks[i].range,
                        label_range: heading.label_range,
                    },
                );
            }
            i += 1;
        }
        proof {
            assert(blocks@.take(blocks@.len() as int) =~= blocks@);
            law_outline_is_linked(blocks@);
        }
        OutlineSnapshot { revision, items }
    }

    /// The revision that the outline was made from.
    pub fn revision(&self) -> (r: Revision)
        ensures
            r == self.revision,
    {
        self.revision
    }

    /// All items, in document order.
    pub fn items(&self) -> (r: &[OutlineItem])
        ensures
            r@ == self.items@,
    {
        self.items.as_slice()
    }

    /// One item.
    pub fn item(&self, index: usize) -> (r: Option<OutlineItem>)
        ensures
            r == (if index < self.items@.len() {
                Some(self.items@[index as int])
            } else {
                None
            }),
    {
        if index < self.items.len() {
            Some(self.items[index])
        } else {
            None
        }
    }

    /// Whether the document has no heading.
    pub fn is_empty(&self) -> (r: bool)
        ensures
            r == (self.items@.len() == 0),
    {
        self.items.len() == 0
    }

    /// The number of headings.
    pub fn len(&self) -> (r: usize)
        ensures
            r == self.items@.len(),
    {
        self.items.len()
    }
}

/// An outline has an item for every heading of the document and for nothing else, in
/// document order, with what the heading says: `number` is the number of a block.
pub proof fn law_outline_lists_every_heading(blocks: Seq<OutlineBlock>, number: int)
    requires
        blocks.len() <= usize::MAX,
        0 <= number < blocks.len(),
    ensures
        blocks[number].heading is Some <==> exists|i: int|
            0 <= i < outline(blocks).len() && (#[trigger] outline(blocks)[i]).block == number,
        forall|i: int|
            0 <= i < outline(blocks).len() && (#[trigger] outline(blocks)[i]).block == number ==> {
                let item = outline(blocks)[i];
                &&& item.index == i
                &&& item.level == blocks[number].heading->Some_0.level
                &&& item.label_range == blocks[number].heading->Some_0.label_range
                &&& item.source_range == blocks[number].range
            },
        forall|i: int, j: int|
            #![trigger outline(blocks)[i], outline(blocks)[j]]
            0 <= i < j < outline(blocks).len() ==> outline(blocks)[i].block
                < outline(blocks)[j].block < blocks.len(),
    decreases blocks.len(),
{
    law_outline_is_linked(blocks);
    let front = blocks.drop_last();
    let last = blocks.len() - 1;
    let before = outline(front);
    let all = outline(blocks);
    law_outline_is_linked(front);
    lemma_blocks_before(front);
    lemma_blocks_before(blocks);
    if number < last {
        law_outline_lists_every_heading(front, number);
        assert(front[number] == blocks[number]);
        if blocks[number].heading is Some {
            let i = choose|i: int|
                0 <= i < before.len() && (#[trigger] before[i]).block == number;
            assert(all[i] == before[i]);
        }
        assert forall|i: int| 0 <= i < all.len() && (#[trigger] all[i]).block == number implies i
            < before.len() && all[i] == before[i] by {}
    } else if blocks[last].heading is Some {
        assert(all[before.len() as int].block == last);
    }
    if last > 0 {
        law_outline_lists_every_heading(front, 0);
    }
    assert forall|i: int, j: int|
        #![trigger all[i], all[j]]
        0 <= i < j < all.len() implies all[i].block < all[j].block < blocks.len() by {
        assert(all[i] == before[i]);
        if j < before.len() {
            assert(all[j] == before[j]);
        }
    }
}

proof fn lemma_blocks_before(blocks: Seq<OutlineBlock>)
    requires
        blocks.len() <= usize::MAX,
    ensures
        forall|i: int|
            0 <= i < outline(blocks).len() ==> (#[trigger] outline(blocks)[i]).block
                < blocks.len(),
    decreases blocks.len(),
{
    if blocks.len() > 0 {
        lemma_blocks_before(blocks.drop_last());
    }
}

/// A heading stands under the last heading before it of a smaller level, and at the root
/// where there is none.
pub proof fn law_heading_is_under_the_last_smaller_one(blocks: Seq<OutlineBlock>, i: int)
    requires
        blocks.len() <= usize::MAX,
        0 <= i < outline(blocks).len(),
    ensures
        ({
            let items = outline(blocks);
            match items[i].parent {
                Some(p) => p < i && items[p as int].level < items[i].level && forall|k: int|
                    p < k < i ==> (#[trigger] items[k]).level >= items[i].level,
                None => forall|k: int| 0 <= k < i ==> (#[trigger] items[k]).level >= items[i].level,
            }
        }),
{
    law_outline_is_linked(blocks);
    let items = outline(blocks);
    lemma_nearest(items, i, items[i].level);
}

} // verus!
