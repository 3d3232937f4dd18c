//! Layouts of one revision. Only recently used geometry is kept.
use crate::block::BlockKey;
use crate::cache::{count_up, counted, kept, retain};
use crate::offset::{Revision, TextRange};
use crate::text::{byte_len, same_text, text_len};
use crate::visual::VisualRange;
use vstd::prelude::*;

verus! {

/// Counters of a layout cache, over its whole life.
#[derive(Clone, Copy, Debug, Default, PartialEq, Eq, Structural)]
pub struct LayoutCacheStats {
    pub entries: usize,
    pub builds: u64,
    pub hits: u64,
    pub remapped: u64,
    pub invalidated: u64,
    pub evicted: u64,
}

impl LayoutCacheStats {
    /// The layouts that are kept.
    pub fn entries(self) -> (r: usize)
        ensures
            r == self.entries,
    {
        self.entries
    }

    /// How often a layout was made.
    pub fn builds(self) -> (r: u64)
        ensures
            r == self.builds,
    {
        self.builds
    }

    /// How often a kept layout was used.
    pub fn hits(self) -> (r: u64)
        ensures
            r == self.hits,
    {
        self.hits
    }

    /// How many layouts were carried over an edit.
    pub fn remapped(self) -> (r: u64)
        ensures
            r == self.remapped,
    {
        self.remapped
    }

    /// How many layouts were dropped because they no longer hold.
    pub fn invalidated(self) -> (r: u64)
        ensures
            r == self.invalidated,
    {
        self.invalidated
    }

    /// How many layouts were dropped to make room.
    pub fn evicted(self) -> (r: u64)
        ensures
            r == self.evicted,
    {
        self.evicted
    }
}

/// Where the advances of a layout come from. A quick measurement never stands in for
/// a shaped layout.
#[derive(Clone, Copy, Debug, PartialEq, Eq, Hash, Structural)]
pub enum LayoutBackend {
    Metrics,
    Shaped,
}

impl Default for LayoutBackend {
    fn default() -> (r: LayoutBackend)
        ensures
            r == LayoutBackend::Metrics,
    {
        LayoutBackend::Metrics
    }
}

/// The direction that a paragraph starts in.
#[derive(Clone, Copy, Debug, PartialEq, Eq, Hash, Structural)]
pub enum BaseDirection {
    Auto,
    LeftToRight,
    RightToLeft,
}

/// What a layout depends on besides its block. Lengths are given by their bits, so
/// that only equal lengths compare equal.
#[derive(Clone, Copy, Debug, PartialEq, Eq, Hash, Structural)]
pub struct LayoutSettings {
    pub max_width: u32,
    pub line_height: u32,
    pub default_advance: u32,
    pub direction: BaseDirection,
    pub theme: u32,
}

/// What a layout is found by.
#[derive(Clone, Copy, Debug, PartialEq, Eq, Hash, Structural)]
pub struct LayoutKey {
    pub context_key: u64,
    pub block: BlockKey,
    pub settings: LayoutSettings,
    pub backend: LayoutBackend,
}

impl LayoutKey {
    /// The key of a block.
    pub fn new(
        block: BlockKey,
        settings: LayoutSettings,
        backend: LayoutBackend,
        context_key: u64,
    ) -> (r: LayoutKey)
        ensures
            r == (LayoutKey { context_key, block, settings, backend }),
    {
        LayoutKey { context_key, block, settings, backend }
    }

    /// The same key over another range.
    pub open spec fn spec_remapped(self, range: TextRange) -> LayoutKey {
        LayoutKey { block: BlockKey { range, kind: self.block.kind }, ..self }
    }

    fn remapped(self, range: TextRange) -> (r: LayoutKey)
        ensures
            r == self.spec_remapped(range),
    {
        LayoutKey { block: BlockKey { range, kind: self.block.kind }, ..self }
    }
}

/// What was laid out.
#[derive(Debug)]
pub struct LayoutContent {
    /// The visible text.
    pub text: String,
    /// The source that a transient text of an input method replaces.
    pub composition_range: Option<TextRange>,
    /// Where the transient text stands in the visible text.
    pub composition_visual: Option<VisualRange>,
    /// The decorations, by number: equal ones have the same.
    pub decorations: u64,
}

impl LayoutContent {
    /// Whether both say the same.
    pub open spec fn equals(self, other: LayoutContent) -> bool {
        &&& self.text@ == other.text@
        &&& self.composition_range == other.composition_range
        &&& self.composition_visual == other.composition_visual
        &&& self.decorations == other.decorations
    }

    fn same(&self, other: &LayoutContent) -> (r: bool)
        ensures
            r == self.equals(*other),
    {
        self.composition_range == other.composition_range && self.composition_visual
            == other.composition_visual && self.decorations == other.decorations && same_text(
            self.text.as_str(),
            other.text.as_str(),
        )
    }

    fn copy(&self) -> (r: LayoutContent)
        ensures
            r.equals(*self),
    {
        LayoutContent {
            text: self.text.as_str().to_owned(),
            composition_range: self.composition_range,
            composition_visual: self.composition_visual,
            decorations: self.decorations,
        }
    }
}

/// What a block is to be laid out from, all of one making.
#[derive(Clone, Copy)]
pub struct BlockLayoutSource<'a> {
    pub content: &'a LayoutContent,
    /// The selection inside the transient text.
    pub selection: Option<VisualRange>,
    /// The images whose size is known, by their source.
    pub sizes: &'a [TextRange],
}

impl<'a> BlockLayoutSource<'a> {
    /// The source of a block's layout.
    pub fn new(
        content: &'a LayoutContent,
        selection: Option<VisualRange>,
        sizes: &'a [TextRange],
    ) -> (r: BlockLayoutSource<'a>)
        ensures
            r.content == content,
            r.selection == selection,
            r.sizes == sizes,
    {
        BlockLayoutSource { content, selection, sizes }
    }
}

/// A layout as it was made.
#[derive(Debug)]
pub struct MadeLayout<V> {
    /// The images that got a placeholder, by their source.
    pub pending: Vec<TextRange>,
    /// The number of glyphs, clusters and lines.
    pub geometry: usize,
    pub view: V,
}

/// A layout with its key.
#[derive(Debug)]
pub struct LayoutEntry<V> {
    pub key: LayoutKey,
    pub revision: Revision,
    pub content: LayoutContent,
    pub selection: Option<VisualRange>,
    pub made: MadeLayout<V>,
}

/// A layout after an edit outside of its block.
#[derive(Debug)]
pub struct RemappedLayout<V> {
    pub range: TextRange,
    pub content: LayoutContent,
    pub selection: Option<VisualRange>,
    pub made: MadeLayout<V>,
}

/// The most layouts that are kept.
pub const MAX_ENTRIES: usize = 256;

/// The most glyphs, clusters and lines that are kept.
pub const MAX_GEOMETRY_ITEMS: usize = 32_768;

/// The most bytes of visible text that are kept.
pub const MAX_TEXT_BYTES: usize = 262_144;

/// The layouts of one document, the one that was used last at the end.
#[derive(Debug)]
pub struct LayoutCache<V> {
    pub entries: Vec<LayoutEntry<V>>,
    pub stats: LayoutCacheStats,
}

/// The geometry of all entries.
pub open spec fn geometry_sum<V>(entries: Seq<LayoutEntry<V>>) -> int
    decreases entries.len(),
{
    if entries.len() == 0 {
        0
    } else {
        entries[0].made.geometry + geometry_sum(entries.drop_first())
    }
}

/// The visible text of all entries, in bytes.
pub open spec fn text_sum<V>(entries: Seq<LayoutEntry<V>>) -> int
    decreases entries.len(),
{
    if entries.len() == 0 {
        0
    } else {
        byte_len(entries[0].content.text@) + text_sum(entries.drop_first())
    }
}

/// Whether the entries stay inside the limits.
pub open spec fn within_budget<V>(entries: Seq<LayoutEntry<V>>) -> bool {
    &&& entries.len() <= MAX_ENTRIES
    &&& geometry_sum(entries) <= MAX_GEOMETRY_ITEMS
    &&& text_sum(entries) <= MAX_TEXT_BYTES
}

/// The entries that stay: the oldest go until the rest is inside the limits, or one
/// is left. A single layout stays however large it is.
pub open spec fn budgeted<V>(entries: Seq<LayoutEntry<V>>) -> Seq<LayoutEntry<V>>
    decreases entries.len(),
{
    if entries.len() <= 1 || within_budget(entries) {
        entries
    } else {
        budgeted(entries.drop_first())
    }
}

impl<V> LayoutCache<V> {
    /// Whether the cache holds no more layouts than it may.
    pub open spec fn bounded(self) -> bool {
        self.entries@.len() <= MAX_ENTRIES
    }
}

/// The entries of `revision`.
pub open spec fn current_layouts<V>(
    entries: Seq<LayoutEntry<V>>,
    revision: Revision,
) -> Seq<LayoutEntry<V>> {
    kept(entries, Seq::new(entries.len(), |k: int| entries[k].revision == revision))
}

/// The entries whose key is not `key`.
pub open spec fn other_layouts<V>(
    entries: Seq<LayoutEntry<V>>,
    key: LayoutKey,
) -> Seq<LayoutEntry<V>> {
    kept(entries, Seq::new(entries.len(), |k: int| entries[k].key != key))
}

/// Whether some entry has the key.
pub open spec fn has_key<V>(entries: Seq<LayoutEntry<V>>, key: LayoutKey) -> bool {
    exists|k: int| 0 <= k < entries.len() && (#[trigger] entries[k]).key == key
}

/// The entries whose key none of `others` has.
pub open spec fn unmatched_layouts<V>(
    entries: Seq<LayoutEntry<V>>,
    others: Seq<LayoutEntry<V>>,
) -> Seq<LayoutEntry<V>> {
    kept(entries, Seq::new(entries.len(), |k: int| !has_key(others, entries[k].key)))
}

/// A block with the context that its layout depends on.
#[derive(Clone, Copy, Debug, PartialEq, Eq, Structural)]
pub struct BlockContext {
    pub block: BlockKey,
    pub context_key: u64,
}

/// The entries whose block is among `blocks`, in the same context.
pub open spec fn layouts_in<V>(
    entries: Seq<LayoutEntry<V>>,
    blocks: Seq<BlockContext>,
) -> Seq<LayoutEntry<V>> {
    kept(
        entries,
        Seq::new(
            entries.len(),
            |k: int|
                blocks.contains(
                    BlockContext {
                        block: entries[k].key.block,
                        context_key: entries[k].key.context_key,
                    },
                ),
        ),
    )
}

/// The first entry from `from` on that has the key and shows the content, or the
/// number of entries.
pub open spec fn layout_place<V>(
    entries: Seq<LayoutEntry<V>>,
    key: LayoutKey,
    content: LayoutContent,
    from: int,
) -> int
    decreases entries.len() - from,
{
    if 0 <= from < entries.len() && !(entries[from].key == key && entries[from].content.equals(
        content,
    )) {
        layout_place(entries, key, content, from + 1)
    } else {
        from
    }
}

/// Whether an image that got a placeholder is known by now.
pub open spec fn needs_rebuild<V>(entry: LayoutEntry<V>, sizes: Seq<TextRange>) -> bool {
    exists|k: int|
        0 <= k < entry.made.pending@.len() && sizes.contains(#[trigger] entry.made.pending@[k])
}

/// The entries after the one at `place` was used with `selection`: it is the last
/// now.
pub open spec fn used<V>(
    entries: Seq<LayoutEntry<V>>,
    place: int,
    selection: Option<VisualRange>,
) -> Seq<LayoutEntry<V>> {
    entries.remove(place).push(LayoutEntry { selection, ..entries[place] })
}

/// More entries weigh no less.
proof fn lemma_sums_shrink<V>(entries: Seq<LayoutEntry<V>>)
    requires
        entries.len() > 0,
    ensures
        geometry_sum(entries.drop_first()) <= geometry_sum(entries),
        text_sum(entries.drop_first()) <= text_sum(entries),
        within_budget(entries) ==> within_budget(entries.drop_first()),
{
}

/// Sums are not negative.
proof fn lemma_sums_positive<V>(entries: Seq<LayoutEntry<V>>)
    ensures
        geometry_sum(entries) >= 0,
        text_sum(entries) >= 0,
    decreases entries.len(),
{
    if entries.len() > 0 {
        lemma_sums_positive(entries.drop_first());
    }
}

/// Where the entries from `k` on are over the limits, so are those from any earlier
/// place on.
proof fn lemma_over_budget<V>(entries: Seq<LayoutEntry<V>>, j: int, k: int)
    requires
        0 <= j <= k <= entries.len(),
        !within_budget(entries.skip(k)),
    ensures
        !within_budget(entries.skip(j)),
    decreases k - j,
{
    if j < k {
        lemma_over_budget(entries, j + 1, k);
        assert(entries.skip(j).drop_first() =~= entries.skip(j + 1));
        lemma_sums_shrink(entries.skip(j));
    }
}

/// Whether two or more entries stand from `j` on and are over the limits.
spec fn over_from<V>(entries: Seq<LayoutEntry<V>>, j: int) -> bool {
    entries.len() - j > 1 && !within_budget(entries.skip(j))
}

/// The entries that stay are those from the first place on from which all fits, or
/// the last one.
proof fn lemma_budgeted<V>(entries: Seq<LayoutEntry<V>>, k: int)
    requires
        0 <= k <= entries.len(),
        entries.len() - k <= 1 || within_budget(entries.skip(k)),
        forall|j: int| 0 <= j < k ==> #[trigger] over_from(entries, j),
    ensures
        budgeted(entries) == entries.skip(k),
    decreases k,
{
    assert(entries.skip(0) =~= entries);
    if k > 0 {
        let rest = entries.drop_first();
        assert(rest.skip(k - 1) =~= entries.skip(k));
        assert(over_from(entries, 0));
        assert forall|j: int| 0 <= j < k - 1 implies #[trigger] over_from(rest, j) by {
            assert(over_from(entries, j + 1));
            assert(rest.skip(j) =~= entries.skip(j + 1));
        }
        lemma_budgeted(rest, k - 1);
    }
}

/// What stays is inside the limits or a single layout; the layout used last stays;
/// and no more than needed goes.
pub proof fn law_budget<V>(entries: Seq<LayoutEntry<V>>)
    ensures
        within_budget(budgeted(entries)) || budgeted(entries).len() <= 1,
        entries.len() > 0 ==> budgeted(entries).len() > 0 && budgeted(entries).last()
            == entries.last(),
        within_budget(entries) ==> budgeted(entries) == entries,
        budgeted(entries).len() <= entries.len(),
        budgeted(entries) == entries.skip(entries.len() - budgeted(entries).len()),
    decreases entries.len(),
{
    if entries.len() <= 1 || within_budget(entries) {
        assert(entries.skip(0) =~= entries);
    } else {
        let rest = entries.drop_first();
        law_budget(rest);
        let n = budgeted(rest).len();
        assert(rest.skip(rest.len() - n) =~= entries.skip(entries.len() - n));
    }
}

fn holds_range(ranges: &[TextRange], wanted: TextRange) -> (r: bool)
    ensures
        r == ranges@.contains(wanted),
{
    let mut i: usize = 0;
    while i < ranges.len()
        invariant
            i <= ranges@.len(),
            forall|k: int| 0 <= k < i ==> ranges@[k] != wanted,
        decreases ranges@.len() - i,
    {
        if ranges[i] == wanted {
            return true;
        }
        i += 1;
    }
    false
}

fn holds_context(blocks: &[BlockContext], wanted: BlockContext) -> (r: bool)
    ensures
        r == blocks@.contains(wanted),
{
    let mut i: usize = 0;
    while i < blocks.len()
        invariant
            i <= blocks@.len(),
            forall|k: int| 0 <= k < i ==> blocks@[k] != wanted,
        decreases blocks@.len() - i,
    {
        if blocks[i] == wanted {
            return true;
        }
        i += 1;
    }
    false
}

impl<V> LayoutEntry<V> {
    fn needs_widget_rebuild(&self, sizes: &[TextRange]) -> (r: bool)
        ensures
            r == needs_rebuild(*self, sizes@),
    {
        let mut i: usize = 0;
        while i < self.made.pending.len()
            invariant
                i <= self.made.pending@.len(),
                forall|k: int|
                    0 <= k < i ==> !sizes@.contains(#[trigger] self.made.pending@[k]),
            decreases self.made.pending@.len() - i,
        {
            if holds_range(sizes, self.made.pending[i]) {
                assert(sizes@.contains(self.made.pending@[i as int]));
                return true;
            }
            i += 1;
        }
        false
    }
}

fn any_key<V>(entries: &Vec<LayoutEntry<V>>, key: LayoutKey) -> (r: bool)
    ensures
        r == has_key(entries@, key),
{
    let mut i: usize = 0;
    while i < entries.len()
        invariant
            i <= entries@.len(),
            forall|k: int| 0 <= k < i ==> (#[trigger] entries@[k]).key != key,
        decreases entries@.len() - i,
    {
        if entries[i].key == key {
            assert(entries@[i as int].key == key);
            return true;
        }
        i += 1;
    }
    false
}

/// What the budget drops, and what it leaves.
pub open spec fn after_budget<V>(
    before: LayoutCache<V>,
    entries: Seq<LayoutEntry<V>>,
    after: LayoutCache<V>,
) -> bool {
    &&& after.entries@ == budgeted(entries)
    &&& after.stats == (LayoutCacheStats {
        evicted: counted(before.stats.evicted, entries.len() - budgeted(entries).len()),
        ..before.stats
    })
}

impl<V> Default for LayoutCache<V> {
    fn default() -> (r: LayoutCache<V>)
        ensures
            r.bounded(),
            r.entries@.len() == 0,
            r.stats == (LayoutCacheStats {
                entries: 0,
                builds: 0,
                hits: 0,
                remapped: 0,
                invalidated: 0,
                evicted: 0,
            }),
    {
        LayoutCache::new()
    }
}

impl<V> LayoutCache<V> {
    /// A cache that holds nothing.
    pub fn new() -> (r: LayoutCache<V>)
        ensures
            r.bounded(),
            r.entries@.len() == 0,
            r.stats == (LayoutCacheStats {
                entries: 0,
                builds: 0,
                hits: 0,
                remapped: 0,
                invalidated: 0,
                evicted: 0,
            }),
    {
        LayoutCache {
            entries: Vec::new(),
            stats: LayoutCacheStats {
                entries: 0,
                builds: 0,
                hits: 0,
                remapped: 0,
                invalidated: 0,
                evicted: 0,
            },
        }
    }

    /// Drops the oldest layouts until the rest fits.
    fn enforce_budget(&mut self)
        ensures
            after_budget(*old(self), old(self).entries@, *final(self)),
    {
        let ghost all = self.entries@;
        let count = self.entries.len();
        let mut first: usize = count;
        let mut geometry: usize = 0;
        let mut text: usize = 0;
        assert(all.skip(count as int) =~= Seq::empty());
        while first > 0
            invariant_except_break
                first <= count,
                count - first <= 1 || within_budget(all.skip(first as int)),
            invariant
                *self == *old(self),
                all == self.entries@,
                first <= count == all.len(),
                geometry == geometry_sum(all.skip(first as int)),
                text == text_sum(all.skip(first as int)),
                count - first <= 1 || within_budget(all.skip(first as int)),
            ensures
                first == 0 || (count - first >= 1 && !within_budget(all.skip(first - 1))),
            decreases first,
        {
            let g: usize = self.entries[first - 1].made.geometry;
            let t: usize = text_len(self.entries[first - 1].content.text.as_str());
            proof {
                assert(all.skip(first - 1).drop_first() =~= all.skip(first as int));
                lemma_sums_positive(all.skip(first as int));
            }
            if first < count {
                let over = count - first >= MAX_ENTRIES || geometry > MAX_GEOMETRY_ITEMS || g
                    > MAX_GEOMETRY_ITEMS - geometry || text > MAX_TEXT_BYTES || t > MAX_TEXT_BYTES
                    - text;
                if over {
                    break ;
                }
            }
            geometry = geometry + g;
            text = text + t;
            first -= 1;
        }
        proof {
            assert forall|j: int| 0 <= j < first implies #[trigger] over_from(all, j) by {
                lemma_over_budget(all, j, first - 1);
            }
            lemma_budgeted(all, first as int);
        }
        let newest = self.entries.split_off(first);
        assert(newest@ =~= all.skip(first as int));
        self.entries = newest;
        self.stats.evicted = count_up(self.stats.evicted, first);
    }

    /// Drops the layouts of other revisions.
    fn prepare(&mut self, revision: Revision)
        ensures
            final(self).entries@ == current_layouts(old(self).entries@, revision),
            final(self).entries@.len() <= old(self).entries@.len(),
            final(self).stats == (LayoutCacheStats {
                invalidated: counted(
                    old(self).stats.invalidated,
                    old(self).entries@.len() - final(self).entries@.len(),
                ),
                ..old(self).stats
            }),
    {
        let mut keep: Vec<bool> = Vec::new();
        let mut i: usize = 0;
        while i < self.entries.len()
            invariant
                i <= self.entries@.len(),
                *self == *old(self),
                keep@.len() == i,
                forall|k: int|
                    0 <= k < i ==> keep@[k] == ((#[trigger] self.entries@[k]).revision == revision),
            decreases self.entries@.len() - i,
        {
            keep.push(self.entries[i].revision == revision);
            i += 1;
        }
        proof {
            let entries = self.entries@;
            assert(keep@ =~= Seq::new(entries.len(), |k: int| entries[k].revision == revision));
            crate::cache::lemma_kept(entries, keep@);
        }
        let dropped = retain(&mut self.entries, &keep);
        self.stats.invalidated = count_up(self.stats.invalidated, dropped);
    }

    /// Finds a layout that can be used as it is, and makes it the last one. One with
    /// a placeholder for an image that is known by now is dropped.
    fn reusable(&mut self, key: LayoutKey, source: &BlockLayoutSource<'_>) -> (r: Option<usize>)
        ensures
            ({
                let before = old(self).entries@;
                let place = layout_place(before, key, *source.content, 0);
                if place >= before.len() {
                    r is None && *final(self) == *old(self)
                } else if needs_rebuild(before[place], source.sizes@) {
                    &&& r is None
                    &&& final(self).entries@ == before.remove(place)
                    &&& final(self).stats == (LayoutCacheStats {
                        invalidated: counted(old(self).stats.invalidated, 1),
                        ..old(self).stats
                    })
                } else {
                    &&& r == Some((before.len() - 1) as usize)
                    &&& final(self).entries@ == used(before, place, source.selection)
                    &&& final(self).stats == old(self).stats
                }
            }),
            r matches Some(place) ==> place == final(self).entries@.len() - 1,
    {
        let ghost before = self.entries@;
        let mut i: usize = 0;
        while i < self.entries.len() && !(self.entries[i].key == key
            && self.entries[i].content.same(source.content))
            invariant
                i <= self.entries@.len(),
                *self == *old(self),
                before == self.entries@,
                layout_place(before, key, *source.content, i as int) == layout_place(
                    before,
                    key,
                    *source.content,
                    0,
                ),
            decreases self.entries@.len() - i,
        {
            i += 1;
        }
        if i == self.entries.len() {
            return None;
        }
        if self.entries[i].needs_widget_rebuild(source.sizes) {
            self.entries.remove(i);
            self.stats.invalidated = count_up(self.stats.invalidated, 1);
            return None;
        }
        let mut entry = self.entries.remove(i);
        entry.selection = source.selection;
        self.entries.push(entry);
        Some(self.entries.len() - 1)
    }

    /// Adds a layout, in place of any other under its key.
    fn insert(&mut self, entry: LayoutEntry<V>)
        ensures
            after_budget(
                LayoutCache {
                    stats: LayoutCacheStats {
                        builds: counted(old(self).stats.builds, 1),
                        ..old(self).stats
                    },
                    ..*old(self)
                },
                other_layouts(old(self).entries@, entry.key).push(entry),
                *final(self),
            ),
    {
        let mut keep: Vec<bool> = Vec::new();
        let mut i: usize = 0;
        while i < self.entries.len()
            invariant
                i <= self.entries@.len(),
                *self == *old(self),
                keep@.len() == i,
                forall|k: int|
                    0 <= k < i ==> keep@[k] == ((#[trigger] self.entries@[k]).key != entry.key),
            decreases self.entries@.len() - i,
        {
            keep.push(self.entries[i].key != entry.key);
            i += 1;
        }
        proof {
            let entries = self.entries@;
            assert(keep@ =~= Seq::new(entries.len(), |k: int| entries[k].key != entry.key));
        }
        retain(&mut self.entries, &keep);
        self.entries.push(entry);
        self.stats.builds = count_up(self.stats.builds, 1);
        self.enforce_budget();
    }
}

/// What is left of a cache once it was turned to `revision` and searched for a layout
/// that can be used: one that cannot be used any more is gone.
pub open spec fn searched<V>(
    cache: LayoutCache<V>,
    revision: Revision,
    key: LayoutKey,
    content: LayoutContent,
) -> Seq<LayoutEntry<V>> {
    let current = current_layouts(cache.entries@, revision);
    let place = layout_place(current, key, content, 0);
    if place < current.len() {
        current.remove(place)
    } else {
        current
    }
}

/// Whether a layout can be used as it is.
pub open spec fn reuses<V>(
    cache: LayoutCache<V>,
    revision: Revision,
    key: LayoutKey,
    content: LayoutContent,
    sizes: Seq<TextRange>,
) -> bool {
    let current = current_layouts(cache.entries@, revision);
    let place = layout_place(current, key, content, 0);
    place < current.len() && !needs_rebuild(current[place], sizes)
}

/// What a request leaves that uses a kept layout.
pub open spec fn after_use<V>(
    before: LayoutCache<V>,
    after: LayoutCache<V>,
    revision: Revision,
    key: LayoutKey,
    content: LayoutContent,
    selection: Option<VisualRange>,
) -> bool {
    let current = current_layouts(before.entries@, revision);
    let place = layout_place(current, key, content, 0);
    &&& after.entries@ == used(current, place, selection)
    &&& after.stats == (LayoutCacheStats {
        hits: counted(before.stats.hits, 1),
        invalidated: counted(before.stats.invalidated, before.entries@.len() - current.len()),
        ..before.stats
    })
}

/// The counters after a search that found nothing to use.
pub open spec fn missed<V>(
    before: LayoutCache<V>,
    revision: Revision,
    key: LayoutKey,
    content: LayoutContent,
) -> LayoutCacheStats {
    let current = current_layouts(before.entries@, revision);
    let stale = counted(before.stats.invalidated, before.entries@.len() - current.len());
    LayoutCacheStats {
        invalidated: counted(
            stale,
            current.len() - searched(before, revision, key, content).len(),
        ),
        ..before.stats
    }
}

/// What a request leaves that had a layout made, as entry `entry`.
pub open spec fn after_make<V>(
    before: LayoutCache<V>,
    after: LayoutCache<V>,
    entry: LayoutEntry<V>,
) -> bool {
    let left = searched(before, entry.revision, entry.key, entry.content);
    after_budget(
        LayoutCache {
            stats: LayoutCacheStats {
                builds: counted(before.stats.builds, 1),
                ..missed(before, entry.revision, entry.key, entry.content)
            },
            ..before
        },
        other_layouts(left, entry.key).push(entry),
        after,
    )
}

/// Content that says the same is found at the same place.
proof fn lemma_place_equal<V>(
    entries: Seq<LayoutEntry<V>>,
    key: LayoutKey,
    a: LayoutContent,
    b: LayoutContent,
    from: int,
)
    requires
        a.equals(b),
    ensures
        layout_place(entries, key, a, from) == layout_place(entries, key, b, from),
    decreases entries.len() - from,
{
    if 0 <= from < entries.len() {
        lemma_place_equal(entries, key, a, b, from + 1);
    }
}

/// The entries that are carried over an edit: those whose outcome says what they are
/// now.
pub open spec fn carried_layouts<V>(
    entries: Seq<LayoutEntry<V>>,
    outcomes: Seq<Option<RemappedLayout<V>>>,
    revision: Revision,
) -> Seq<LayoutEntry<V>>
    decreases entries.len(),
{
    if entries.len() == 0 {
        Seq::empty()
    } else {
        let front = carried_layouts(entries.drop_last(), outcomes, revision);
        match outcomes[entries.len() - 1] {
            Some(mapped) => front.push(
                LayoutEntry {
                    key: entries.last().key.spec_remapped(mapped.range),
                    revision,
                    content: mapped.content,
                    selection: mapped.selection,
                    made: mapped.made,
                },
            ),
            None => front,
        }
    }
}

/// Which entries are carried depends on their own outcomes alone.
proof fn lemma_carried_layouts<V>(
    entries: Seq<LayoutEntry<V>>,
    outcomes: Seq<Option<RemappedLayout<V>>>,
    longer: Seq<Option<RemappedLayout<V>>>,
    revision: Revision,
)
    requires
        entries.len() <= outcomes.len() <= longer.len(),
        forall|k: int| 0 <= k < entries.len() ==> outcomes[k] == longer[k],
    ensures
        carried_layouts(entries, outcomes, revision) == carried_layouts(entries, longer, revision),
    decreases entries.len(),
{
    if entries.len() > 0 {
        lemma_carried_layouts(entries.drop_last(), outcomes, longer, revision);
    }
}

/// Whether `map` may fail on `entry` with `error`.
pub open spec fn remap_fails<V, E, F: Fn(&LayoutEntry<V>) -> Result<Option<RemappedLayout<V>>, E>>(
    map: F,
    entry: LayoutEntry<V>,
    error: E,
) -> bool {
    map.ensures((&entry,), Err(error))
}

/// Whether `r` and `after` are what becomes of asking a cache for a block's layout: one
/// that can be used again is, else `build` makes it.
pub open spec fn gets_block<V, E, F: FnOnce() -> Result<MadeLayout<V>, E>>(
    before: LayoutCache<V>,
    after: LayoutCache<V>,
    revision: Revision,
    key: LayoutKey,
    source: BlockLayoutSource<'_>,
    build: F,
    r: Result<usize, E>,
) -> bool {
    if reuses(before, revision, key, *source.content, source.sizes@) {
        r is Ok && after_use(before, after, revision, key, *source.content, source.selection)
    } else {
        exists|made: Result<MadeLayout<V>, E>| #[trigger]
            build.ensures((), made) && match made {
                Ok(layout) => r is Ok && exists|content: LayoutContent| #[trigger]
                    content.equals(*source.content) && after_make(
                        before,
                        after,
                        LayoutEntry {
                            key,
                            revision,
                            content,
                            selection: source.selection,
                            made: layout,
                        },
                    ),
                Err(error) => {
                    &&& r == Err::<usize, E>(error)
                    &&& after.entries@ == searched(before, revision, key, *source.content)
                    &&& after.stats == missed(before, revision, key, *source.content)
                },
            }
    }
}

impl<V> LayoutCache<V> {
    /// Takes over the layouts of another cache, such as one that a worker filled. They
    /// count as used last, and replace those with the same keys.
    pub fn adopt_snapshot(&mut self, snapshot: LayoutCache<V>)
        requires
            old(self).entries@.len() + snapshot.entries@.len() <= usize::MAX,
        ensures
            after_budget(
                *old(self),
                unmatched_layouts(old(self).entries@, snapshot.entries@) + snapshot.entries@,
                *final(self),
            ),
            final(self).bounded(),
    {
        let mut keep: Vec<bool> = Vec::new();
        let mut i: usize = 0;
        while i < self.entries.len()
            invariant
                i <= self.entries@.len(),
                *self == *old(self),
                keep@.len() == i,
                forall|k: int|
                    0 <= k < i ==> keep@[k] == !has_key(
                        snapshot.entries@,
                        (#[trigger] self.entries@[k]).key,
                    ),
            decreases self.entries@.len() - i,
        {
            keep.push(!any_key(&snapshot.entries, self.entries[i].key));
            i += 1;
        }
        let ghost before = self.entries@;
        proof {
            assert(keep@ =~= Seq::new(
                before.len(),
                |k: int| !has_key(snapshot.entries@, before[k].key),
            ));
            crate::cache::lemma_kept(before, keep@);
        }
        retain(&mut self.entries, &keep);
        let mut incoming = snapshot.entries;
        self.entries.append(&mut incoming);
        proof {
            law_budget(self.entries@);
        }
        self.enforce_budget();
    }

    /// The layout of a block, made where none can be used, and its place. Where it
    /// cannot be made, nothing is added.
    pub fn get_or_build_block<E, F: FnOnce() -> Result<MadeLayout<V>, E>>(
        &mut self,
        revision: Revision,
        key: LayoutKey,
        source: BlockLayoutSource<'_>,
        build: F,
    ) -> (r: Result<usize, E>)
        requires
            build.requires(()),
        ensures
            gets_block(*old(self), *final(self), revision, key, source, build, r),
            r matches Ok(place) ==> place == final(self).entries@.len() - 1
                && final(self).entries@[place as int].key == key
                && final(self).entries@[place as int].content.equals(*source.content),
            old(self).bounded() ==> final(self).bounded(),
    {
        self.prepare(revision);
        let ghost current = self.entries@;
        proof {
            lemma_place(current, key, *source.content, 0);
        }
        if let Some(place) = self.reusable(key, &source) {
            self.stats.hits = count_up(self.stats.hits, 1);
            return Ok(place);
        }
        match build() {
            Ok(made) => {
                let content = source.content.copy();
                let ghost entry = LayoutEntry {
                    key,
                    revision,
                    content,
                    selection: source.selection,
                    made,
                };
                proof {
                    lemma_place_equal(current, key, content, *source.content, 0);
                }
                self.insert(
                    LayoutEntry { key, revision, content, selection: source.selection, made },
                );
                proof {
                    assert(after_make(*old(self), *self, entry));
                    let left = searched(*old(self), revision, key, content);
                    law_budget(other_layouts(left, key).push(entry));
                }
                Ok(self.entries.len() - 1)
            },
            Err(error) => Err(error),
        }
    }

    /// Carries the layouts over an edit to `revision`. `map` says of each layout what
    /// becomes of it. Where that fails for one, the cache stays as it was.
    pub fn map_through<E, F: Fn(&LayoutEntry<V>) -> Result<Option<RemappedLayout<V>>, E>>(
        &mut self,
        revision: Revision,
        map: F,
    ) -> (r: Result<(), E>)
        requires
            forall|k: int|
                0 <= k < old(self).entries@.len() ==> #[trigger] map.requires(
                    (&old(self).entries@[k],),
                ),
        ensures
            r is Ok ==> exists|outcomes: Seq<Option<RemappedLayout<V>>>|
                {
                    &&& outcomes.len() == old(self).entries@.len()
                    &&& final(self).entries@ == #[trigger] carried_layouts(
                        old(self).entries@,
                        outcomes,
                        revision,
                    )
                    &&& forall|k: int|
                        0 <= k < outcomes.len() ==> map.ensures(
                            (&old(self).entries@[k],),
                            Ok(#[trigger] outcomes[k]),
                        )
                },
            r is Ok ==> final(self).stats == (LayoutCacheStats {
                remapped: counted(old(self).stats.remapped, final(self).entries@.len() as int),
                invalidated: counted(
                    old(self).stats.invalidated,
                    old(self).entries@.len() - final(self).entries@.len(),
                ),
                ..old(self).stats
            }),
            r matches Err(error) ==> *final(self) == *old(self),
            r matches Err(error) ==> exists|k: int|
                0 <= k < old(self).entries@.len() && remap_fails(
                    map,
                    #[trigger] old(self).entries@[k],
                    error,
                ),
            old(self).bounded() ==> final(self).bounded(),
    {
        let ghost all = self.entries@;
        let ghost mut outcomes: Seq<Option<RemappedLayout<V>>> = Seq::empty();
        let mut mapped: Vec<LayoutEntry<V>> = Vec::new();
        let count = self.entries.len();
        let mut i: usize = 0;
        assert(all.take(0) =~= Seq::empty());
        while i < count
            invariant
                i <= count == all.len(),
                *self == *old(self),
                all == self.entries@,
                forall|k: int| 0 <= k < all.len() ==> #[trigger] map.requires((&all[k],)),
                outcomes.len() == i,
                forall|k: int|
                    0 <= k < i ==> map.ensures((&all[k],), Ok(#[trigger] outcomes[k])),
                mapped@ == carried_layouts(all.take(i as int), outcomes, revision),
                mapped@.len() <= i,
            decreases count - i,
        {
            assert(map.requires((&all[i as int],)));
            let outcome = match map(&self.entries[i]) {
                Ok(outcome) => outcome,
                Err(error) => {
                    assert(remap_fails(map, old(self).entries@[i as int], error));
                    return Err(error);
                },
            };
            proof {
                let longer = outcomes.push(outcome);
                lemma_carried_layouts(all.take(i as int), outcomes, longer, revision);
                outcomes = longer;
                assert(all.take(i + 1).drop_last() =~= all.take(i as int));
            }
            if let Some(found) = outcome {
                mapped.push(
                    LayoutEntry {
                        key: self.entries[i].key.remapped(found.range),
                        revision,
                        content: found.content,
                        selection: found.selection,
                        made: found.made,
                    },
                );
            }
            i += 1;
        }
        assert(all.take(all.len() as int) =~= all);
        let carried_over = mapped.len();
        self.entries = mapped;
        self.stats.remapped = count_up(self.stats.remapped, carried_over);
        self.stats.invalidated = count_up(self.stats.invalidated, count - carried_over);
        Ok(())
    }

    /// Drops the layouts of blocks that are not among `blocks`, or are in another
    /// context there.
    pub fn retain_blocks(&mut self, blocks: &[BlockContext])
        ensures
            final(self).entries@ == layouts_in(old(self).entries@, blocks@),
            old(self).bounded() ==> final(self).bounded(),
            final(self).stats == (LayoutCacheStats {
                invalidated: counted(
                    old(self).stats.invalidated,
                    old(self).entries@.len() - final(self).entries@.len(),
                ),
                ..old(self).stats
            }),
    {
        let mut keep: Vec<bool> = Vec::new();
        let mut i: usize = 0;
        while i < self.entries.len()
            invariant
                i <= self.entries@.len(),
                *self == *old(self),
                keep@.len() == i,
                forall|k: int|
                    0 <= k < i ==> keep@[k] == blocks@.contains(
                        BlockContext {
                            block: (#[trigger] self.entries@[k]).key.block,
                            context_key: self.entries@[k].key.context_key,
                        },
                    ),
            decreases self.entries@.len() - i,
        {
            let key = self.entries[i].key;
            keep.push(
                holds_context(
                    blocks,
                    BlockContext { block: key.block, context_key: key.context_key },
                ),
            );
            i += 1;
        }
        proof {
            let entries = self.entries@;
            assert(keep@ =~= Seq::new(
                entries.len(),
                |k: int|
                    blocks@.contains(
                        BlockContext {
                            block: entries[k].key.block,
                            context_key: entries[k].key.context_key,
                        },
                    ),
            ));
        }
        let dropped = retain(&mut self.entries, &keep);
        self.stats.invalidated = count_up(self.stats.invalidated, dropped);
    }

    /// Drops everything.
    pub fn clear(&mut self)
        ensures
            final(self).bounded(),
            final(self).entries@.len() == 0,
            final(self).stats == (LayoutCacheStats {
                invalidated: counted(
                    old(self).stats.invalidated,
                    old(self).entries@.len() as int,
                ),
                ..old(self).stats
            }),
    {
        let dropped = self.entries.len();
        self.entries = Vec::new();
        self.stats.invalidated = count_up(self.stats.invalidated, dropped);
    }

    /// The counters.
    pub fn stats(&self) -> (r: LayoutCacheStats)
        ensures
            r == (LayoutCacheStats { entries: self.entries@.len() as usize, ..self.stats }),
            self.bounded() ==> r.entries <= MAX_ENTRIES,
    {
        LayoutCacheStats { entries: self.entries.len(), ..self.stats }
    }

    /// The revision of what is kept.
    pub fn revision(&self) -> (r: Option<Revision>)
        ensures
            r == (if self.entries@.len() > 0 {
                Some(self.entries@[0].revision)
            } else {
                None
            }),
    {
        if self.entries.len() > 0 {
            Some(self.entries[0].revision)
        } else {
            None
        }
    }
}

/// A place that is found has the key and shows the content.
proof fn lemma_place<V>(
    entries: Seq<LayoutEntry<V>>,
    key: LayoutKey,
    content: LayoutContent,
    from: int,
)
    requires
        0 <= from,
    ensures
        layout_place(entries, key, content, from) >= from,
        layout_place(entries, key, content, from) < entries.len() ==> ({
            let found = entries[layout_place(entries, key, content, from)];
            found.key == key && found.content.equals(content)
        }),
    decreases entries.len() - from,
{
    if from < entries.len() {
        lemma_place(entries, key, content, from + 1);
    }
}

/// A new layout is the only one under its key.
pub proof fn law_one_layout_per_key<V>(
    before: LayoutCache<V>,
    after: LayoutCache<V>,
    entry: LayoutEntry<V>,
)
    requires
        after_make(before, after, entry),
    ensures
        after.entries@.len() > 0,
        after.entries@.last() == entry,
        forall|i: int|
            0 <= i < after.entries@.len() - 1 ==> (#[trigger] after.entries@[i]).key != entry.key,
{
    let left = searched(before, entry.revision, entry.key, entry.content);
    let others = other_layouts(left, entry.key);
    let all = others.push(entry);
    law_budget(all);
    let keep = Seq::new(left.len(), |k: int| left[k].key != entry.key);
    crate::cache::lemma_kept(left, keep);
    assert forall|i: int| 0 <= i < after.entries@.len() - 1 implies (
    #[trigger] after.entries@[i]).key != entry.key by {
        let shift = all.len() - after.entries@.len();
        assert(after.entries@[i] == others[i + shift]);
    }
}

/// Whether all entries are of `revision`.
pub open spec fn all_of<V>(entries: Seq<LayoutEntry<V>>, revision: Revision) -> bool {
    forall|i: int| 0 <= i < entries.len() ==> (#[trigger] entries[i]).revision == revision
}

proof fn lemma_current_layouts<V>(entries: Seq<LayoutEntry<V>>, revision: Revision)
    ensures
        all_of(current_layouts(entries, revision), revision),
{
    let keep = Seq::new(entries.len(), |k: int| entries[k].revision == revision);
    crate::cache::lemma_kept(entries, keep);
}

/// No layout of another revision is left once a layout was asked for: neither where one
/// could be used, nor where one was made.
pub proof fn law_no_stale_layout_is_kept<V>(
    before: LayoutCache<V>,
    after: LayoutCache<V>,
    revision: Revision,
    key: LayoutKey,
    content: LayoutContent,
    selection: Option<VisualRange>,
    entry: LayoutEntry<V>,
)
    requires
        entry.revision == revision,
        ({
            ||| layout_place(current_layouts(before.entries@, revision), key, content, 0)
                < current_layouts(before.entries@, revision).len() && after_use(
                before,
                after,
                revision,
                key,
                content,
                selection,
            )
            ||| after_make(before, after, entry)
        }),
    ensures
        all_of(after.entries@, revision),
{
    let current = current_layouts(before.entries@, revision);
    lemma_current_layouts(before.entries@, revision);
    if after_make(before, after, entry) {
        lemma_place(current, entry.key, entry.content, 0);
        let left = searched(before, revision, entry.key, entry.content);
        let keep = Seq::new(left.len(), |k: int| left[k].key != entry.key);
        crate::cache::lemma_kept(left, keep);
        let all = other_layouts(left, entry.key).push(entry);
        assert(all_of(left, revision));
        assert(all_of(all, revision));
        law_budget(all);
    } else {
        lemma_place(current, key, content, 0);
    }
}

/// An edit keeps the layouts that have a place behind it, each under its own key over the
/// range where it is now and of the new revision: `k` is the number of an entry.
pub proof fn law_layouts_with_a_place_are_carried<V>(
    entries: Seq<LayoutEntry<V>>,
    outcomes: Seq<Option<RemappedLayout<V>>>,
    revision: Revision,
    k: int,
    m: int,
)
    requires
        0 <= k < entries.len() <= outcomes.len(),
    ensures
        carried_layouts(entries, outcomes, revision).len() <= entries.len(),
        outcomes[k] matches Some(mapped) ==> carried_layouts(entries, outcomes, revision).contains(
            LayoutEntry {
                key: entries[k].key.spec_remapped(mapped.range),
                revision,
                content: mapped.content,
                selection: mapped.selection,
                made: mapped.made,
            },
        ),
        0 <= m < carried_layouts(entries, outcomes, revision).len() ==> carried_layouts(
            entries,
            outcomes,
            revision,
        )[m].revision == revision,
    decreases entries.len(),
{
    let front = entries.drop_last();
    let before = carried_layouts(front, outcomes, revision);
    let all = carried_layouts(entries, outcomes, revision);
    let last = entries.len() - 1;
    if last > 0 {
        law_layouts_with_a_place_are_carried(
            front,
            outcomes,
            revision,
            if k < last {
                k
            } else {
                0
            },
            m,
        );
    }
    if 0 <= m < before.len() {
        assert(all[m] == before[m]);
    }
    match outcomes[k] {
        Some(mapped) => {
            let wanted = LayoutEntry {
                key: entries[k].key.spec_remapped(mapped.range),
                revision,
                content: mapped.content,
                selection: mapped.selection,
                made: mapped.made,
            };
            if k < last {
                assert(front[k] == entries[k]);
                let n = before.index_of(wanted);
                assert(all[n] == wanted);
            } else {
                assert(all[before.len() as int] == wanted);
            }
        },
        None => {},
    }
}

} // verus!
