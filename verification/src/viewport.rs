//! The heights of a document's blocks, measured or estimated, and which blocks a
//! viewport shows.
use crate::block::BlockKey;
use crate::cache::{count_up, counted};
use crate::edit::{mapped_after, mapped_before, ChangeSet, TextChange};
use crate::layout::LayoutBackend;
use crate::offset::{ByteOffset, Revision, TextRange};
use vstd::prelude::*;

verus! {

/// Blocks from `start` up to `end`, by number.
#[derive(Clone, Copy, Debug, PartialEq, Eq, Structural)]
pub struct ViewportRange {
    pub start: usize,
    pub end: usize,
}

impl ViewportRange {
    /// Whether the ends are in order.
    pub open spec fn wf(self) -> bool {
        self.start <= self.end
    }

    /// The blocks from `start` up to `end`, or `None` where they are out of order.
    pub fn new(start: usize, end: usize) -> (r: Option<ViewportRange>)
        ensures
            r == (if start <= end {
                Some(ViewportRange { start, end })
            } else {
                None
            }),
            r matches Some(range) ==> range.wf(),
    {
        if start <= end {
            Some(ViewportRange { start, end })
        } else {
            None
        }
    }

    /// The first block.
    pub fn start(self) -> (r: usize)
        ensures
            r == self.start,
    {
        self.start
    }

    /// The block just behind the last.
    pub fn end(self) -> (r: usize)
        ensures
            r == self.end,
    {
        self.end
    }

    /// The number of blocks.
    pub fn len(self) -> (r: usize)
        requires
            self.wf(),
        ensures
            r == self.end - self.start,
    {
        self.end - self.start
    }

    /// Whether there is no block.
    pub fn is_empty(self) -> (r: bool)
        ensures
            r == (self.start == self.end),
    {
        self.start == self.end
    }
}

/// Why the viewport cannot be brought up to date.
#[derive(Clone, Copy, Debug, PartialEq, Eq, Structural)]
pub enum ViewportError {
    /// An offset left the range of offsets.
    AnchorMap,
    /// A block's range is out of order after an edit.
    InvalidRange,
    /// A height, by its bits, is negative or not finite.
    InvalidHeight(u32),
    /// There is no such block.
    OutOfBounds { index: usize, len: usize },
    /// Something belongs to another revision.
    RevisionMismatch { expected: Revision, actual: Revision },
}

/// The bits of positive infinity. Those of the finite numbers from zero up are below them.
pub const INFINITY_BITS: u32 = 0x7F80_0000;

/// The bits of the negative zero, which is equal to zero.
pub const NEGATIVE_ZERO_BITS: u32 = 0x8000_0000;

/// Whether bits are those of a height: a finite number that is not negative.
pub open spec fn is_height(bits: u32) -> bool {
    bits < INFINITY_BITS || bits == NEGATIVE_ZERO_BITS
}

/// Whether the bits of two heights are those of equal numbers.
pub open spec fn same_height(a: u32, b: u32) -> bool {
    a == b || (a == 0 && b == NEGATIVE_ZERO_BITS) || (a == NEGATIVE_ZERO_BITS && b == 0)
}

/// Where the blocks begin that are not measured, at most `limit` of them.
pub open spec fn waiting(entries: Seq<ViewportEntry>, limit: nat) -> Seq<ByteOffset>
    decreases entries.len(),
{
    if entries.len() == 0 {
        Seq::empty()
    } else {
        let front = waiting(entries.drop_last(), limit);
        if entries.last().measured || front.len() >= limit {
            front
        } else {
            front.push(entries.last().key.range.start)
        }
    }
}

/// A block that a viewport shows. Its height is given by its bits.
#[derive(Clone, Copy, Debug, PartialEq, Eq, Structural)]
pub struct ViewportBlock {
    pub index: usize,
    pub block: BlockKey,
    pub height: u32,
    pub measured: bool,
}

/// The blocks that a viewport shows.
#[derive(Debug)]
pub struct ViewportSnapshot {
    pub revision: Revision,
    pub range: ViewportRange,
    pub blocks: Vec<ViewportBlock>,
}

/// Counters of a viewport's state.
#[derive(Clone, Copy, Debug, Default, PartialEq, Eq, Structural)]
pub struct ViewportStats {
    pub entries: usize,
    pub measured: usize,
    pub remapped: u64,
    pub invalidated: u64,
}

impl ViewportStats {
    /// The blocks.
    pub fn entries(self) -> (r: usize)
        ensures
            r == self.entries,
    {
        self.entries
    }

    /// The blocks whose height was measured.
    pub fn measured(self) -> (r: usize)
        ensures
            r == self.measured,
    {
        self.measured
    }

    /// How many heights were carried over an edit.
    pub fn remapped(self) -> (r: u64)
        ensures
            r == self.remapped,
    {
        self.remapped
    }

    /// How many heights were given up.
    pub fn invalidated(self) -> (r: u64)
        ensures
            r == self.invalidated,
    {
        self.invalidated
    }
}

/// A block's height, measured or estimated, by its bits.
#[derive(Clone, Copy, Debug, PartialEq, Eq, Structural)]
pub struct ViewportEntry {
    pub key: BlockKey,
    pub height: u32,
    pub measured: bool,
}

/// The heights of all blocks of a document.
#[derive(Debug)]
pub struct ViewportLayout {
    /// The height of a block that was not measured.
    pub estimate: u32,
    pub backend: LayoutBackend,
    pub entries: Vec<ViewportEntry>,
    pub revision: Option<Revision>,
    pub remapped: u64,
    pub invalidated: u64,
}

/// How many entries are measured.
pub open spec fn measured_count(entries: Seq<ViewportEntry>) -> nat
    decreases entries.len(),
{
    if entries.len() == 0 {
        0
    } else {
        measured_count(entries.drop_last()) + if entries.last().measured {
            1nat
        } else {
            0nat
        }
    }
}

/// How many flags are not set.
pub open spec fn unset(flags: Seq<bool>) -> nat
    decreases flags.len(),
{
    if flags.len() == 0 {
        0
    } else {
        unset(flags.drop_last()) + if flags.last() {
            0nat
        } else {
            1nat
        }
    }
}

/// The first entry under `key` from `from` on whose flag is not set, or the number of
/// entries.
pub open spec fn unused_under(
    entries: Seq<ViewportEntry>,
    used: Seq<bool>,
    key: BlockKey,
    from: int,
) -> int
    decreases entries.len() - from,
{
    if 0 <= from < entries.len() && (used[from] || entries[from].key != key) {
        unused_under(entries, used, key, from + 1)
    } else {
        from
    }
}

/// The entries of blocks, and which of the earlier entries they took over.
pub struct Synced {
    pub entries: Seq<ViewportEntry>,
    pub used: Seq<bool>,
}

/// The entries of the first `count` blocks: each takes over the first earlier entry
/// with its key that is left, or starts with the estimate.
pub open spec fn synced(
    earlier: Seq<ViewportEntry>,
    blocks: Seq<BlockKey>,
    estimate: u32,
    count: int,
) -> Synced
    decreases count,
{
    if count <= 0 {
        Synced { entries: Seq::empty(), used: Seq::new(earlier.len(), |k: int| false) }
    } else {
        let before = synced(earlier, blocks, estimate, count - 1);
        let key = blocks[count - 1];
        let place = unused_under(earlier, before.used, key, 0);
        if place < earlier.len() {
            Synced {
                entries: before.entries.push(earlier[place]),
                used: before.used.update(place, true),
            }
        } else {
            Synced {
                entries: before.entries.push(
                    ViewportEntry { key, height: estimate, measured: false },
                ),
                used: before.used,
            }
        }
    }
}

/// Whether the entries are those of `blocks`, one for one.
pub open spec fn keys_match(entries: Seq<ViewportEntry>, blocks: Seq<BlockKey>) -> bool {
    entries.len() == blocks.len() && forall|k: int|
        0 <= k < entries.len() ==> (#[trigger] entries[k]).key == blocks[k]
}

/// What bringing a layout to `blocks` of `revision` leaves.
pub open spec fn after_sync(
    before: ViewportLayout,
    after: ViewportLayout,
    revision: Revision,
    blocks: Seq<BlockKey>,
) -> bool {
    if before.revision == Some(revision) && keys_match(before.entries@, blocks) {
        after == before
    } else {
        let made = synced(before.entries@, blocks, before.estimate, blocks.len() as int);
        &&& after.estimate == before.estimate
        &&& after.backend == before.backend
        &&& after.entries@ == made.entries
        &&& after.revision == Some(revision)
        &&& after.remapped == before.remapped
        &&& after.invalidated == counted(before.invalidated, unset(made.used) as int)
    }
}

/// Whether a change shares a byte with `range` or meets it.
pub open spec fn touched(changes: Seq<TextChange>, range: TextRange) -> bool {
    exists|k: int|
        0 <= k < changes.len() && (#[trigger] changes[k]).old.start.value <= range.end.value
            && changes[k].old.end.value >= range.start.value
}

/// Where a range is after the changes.
pub open spec fn mapped_range(changes: Seq<TextChange>, range: TextRange) -> Result<
    TextRange,
    ViewportError,
> {
    let start = mapped_before(changes, range.start.value as int);
    let end = mapped_after(changes, range.end.value as int);
    if start > u64::MAX || end > u64::MAX {
        Err(ViewportError::AnchorMap)
    } else if start > end {
        Err(ViewportError::InvalidRange)
    } else {
        Ok(
            TextRange {
                start: crate::offset::ByteOffset { value: start as u64 },
                end: crate::offset::ByteOffset { value: end as u64 },
            },
        )
    }
}

/// Entries carried over changes, up to the first that cannot be.
pub struct CarriedEntries {
    pub entries: Seq<ViewportEntry>,
    pub touched: int,
    pub failed: Option<ViewportError>,
}

/// The first `count` entries after the changes. A touched one is dropped.
pub open spec fn carried_entries(
    entries: Seq<ViewportEntry>,
    changes: Seq<TextChange>,
    count: int,
) -> CarriedEntries
    decreases count,
{
    if count <= 0 {
        CarriedEntries { entries: Seq::empty(), touched: 0, failed: None }
    } else {
        let before = carried_entries(entries, changes, count - 1);
        let entry = entries[count - 1];
        if before.failed is Some {
            before
        } else if touched(changes, entry.key.range) {
            CarriedEntries { touched: before.touched + 1, ..before }
        } else {
            match mapped_range(changes, entry.key.range) {
                Ok(range) => CarriedEntries {
                    entries: before.entries.push(
                        ViewportEntry {
                            key: BlockKey { range, kind: entry.key.kind },
                            ..entry
                        },
                    ),
                    ..before
                },
                Err(error) => CarriedEntries { failed: Some(error), ..before },
            }
        }
    }
}

/// Whether `after` holds the entries of `before` as they are after the changes.
pub open spec fn carried_layout(
    before: ViewportLayout,
    after: ViewportLayout,
    changes: &ChangeSet,
) -> bool {
    let made = carried_entries(before.entries@, changes.changes@, before.entries@.len() as int);
    &&& after.estimate == before.estimate
    &&& after.backend == before.backend
    &&& after.entries@ == made.entries
    &&& after.revision == Some(changes.after)
    &&& after.remapped == counted(before.remapped, made.entries.len() as int)
    &&& after.invalidated == counted(before.invalidated, made.touched)
}

fn changes_touch(changes: &Vec<TextChange>, range: TextRange) -> (r: bool)
    ensures
        r == touched(changes@, range),
{
    let mut i: usize = 0;
    while i < changes.len()
        invariant
            i <= changes@.len(),
            forall|k: int|
                0 <= k < i ==> !((#[trigger] changes@[k]).old.start.value <= range.end.value
                    && changes@[k].old.end.value >= range.start.value),
        decreases changes@.len() - i,
    {
        let old = changes[i].old;
        if old.start.value <= range.end.value && old.end.value >= range.start.value {
            assert(changes@[i as int].old.start.value <= range.end.value);
            return true;
        }
        i += 1;
    }
    false
}

fn map_range(changes: &ChangeSet, range: TextRange) -> (r: Result<TextRange, ViewportError>)
    ensures
        r == mapped_range(changes.changes@, range),
{
    let start = match changes.map_before(range.start) {
        Some(start) => start,
        None => return Err(ViewportError::AnchorMap),
    };
    let end = match changes.map_after(range.end) {
        Some(end) => end,
        None => return Err(ViewportError::AnchorMap),
    };
    match TextRange::new(start, end) {
        Some(mapped) => Ok(mapped),
        None => Err(ViewportError::InvalidRange),
    }
}

/// What carrying the entries over gave.
struct Carried {
    entries: Vec<ViewportEntry>,
    touched: usize,
    failed: Option<ViewportError>,
}

fn carry_entries(entries: &Vec<ViewportEntry>, changes: &ChangeSet) -> (r: Carried)
    ensures
        ({
            let made = carried_entries(entries@, changes.changes@, entries@.len() as int);
            &&& r.entries@ == made.entries
            &&& r.touched == made.touched
            &&& r.failed == made.failed
        }),
{
    let mut out: Vec<ViewportEntry> = Vec::new();
    let mut dropped: usize = 0;
    let mut failed: Option<ViewportError> = None;
    let count = entries.len();
    let mut i: usize = 0;
    while i < count
        invariant
            i <= count == entries@.len(),
            dropped <= i,
            out@ == carried_entries(entries@, changes.changes@, i as int).entries,
            dropped == carried_entries(entries@, changes.changes@, i as int).touched,
            failed == carried_entries(entries@, changes.changes@, i as int).failed,
        decreases count - i,
    {
        if failed.is_none() {
            let entry = entries[i];
            if changes_touch(&changes.changes, entry.key.range) {
                dropped += 1;
            } else {
                match map_range(changes, entry.key.range) {
                    Ok(range) => out.push(
                        ViewportEntry {
                            key: BlockKey { range, kind: entry.key.kind },
                            height: entry.height,
                            measured: entry.measured,
                        },
                    ),
                    Err(error) => {
                        failed = Some(error);
                    },
                }
            }
        }
        i += 1;
    }
    Carried { entries: out, touched: dropped, failed }
}

proof fn lemma_synced(
    earlier: Seq<ViewportEntry>,
    blocks: Seq<BlockKey>,
    estimate: u32,
    count: int,
)
    requires
        0 <= count <= blocks.len(),
    ensures
        synced(earlier, blocks, estimate, count).entries.len() == count,
        synced(earlier, blocks, estimate, count).used.len() == earlier.len(),
        forall|k: int|
            0 <= k < count ==> (#[trigger] synced(earlier, blocks, estimate, count).entries[k]).key
                == blocks[k],
        forall|k: int|
            0 <= k < count ==> ({
                let entry = #[trigger] synced(earlier, blocks, estimate, count).entries[k];
                earlier.contains(entry) || (!entry.measured && entry.height == estimate)
            }),
    decreases count,
{
    if count > 0 {
        lemma_synced(earlier, blocks, estimate, count - 1);
        let before = synced(earlier, blocks, estimate, count - 1);
        lemma_unused(earlier, before.used, blocks[count - 1], 0);
        let place = unused_under(earlier, before.used, blocks[count - 1], 0);
        let after = synced(earlier, blocks, estimate, count);
        assert forall|k: int| 0 <= k < count implies (#[trigger] after.entries[k]).key
            == blocks[k] by {
            if k < count - 1 {
                assert(after.entries[k] == before.entries[k]);
            }
        }
        assert forall|k: int| 0 <= k < count implies ({
            let entry = #[trigger] after.entries[k];
            earlier.contains(entry) || (!entry.measured && entry.height == estimate)
        }) by {
            if k < count - 1 {
                assert(after.entries[k] == before.entries[k]);
            } else if place < earlier.len() {
                assert(earlier[place] == after.entries[k]);
            }
        }
    }
}

proof fn lemma_unused(entries: Seq<ViewportEntry>, used: Seq<bool>, key: BlockKey, from: int)
    requires
        0 <= from,
    ensures
        unused_under(entries, used, key, from) >= from,
        unused_under(entries, used, key, from) < entries.len() ==> entries[unused_under(
            entries,
            used,
            key,
            from,
        )].key == key && !used[unused_under(entries, used, key, from)],
    decreases entries.len() - from,
{
    if from < entries.len() {
        lemma_unused(entries, used, key, from + 1);
    }
}

/// Brought to a list of blocks, a layout has an entry for each of them in order, and
/// every entry was there before or has the estimated height.
pub proof fn law_sync_keeps_heights(
    before: ViewportLayout,
    after: ViewportLayout,
    revision: Revision,
    blocks: Seq<BlockKey>,
)
    requires
        after_sync(before, after, revision, blocks),
    ensures
        after.revision == Some(revision),
        keys_match(after.entries@, blocks),
        forall|k: int|
            0 <= k < blocks.len() ==> before.entries@.contains(#[trigger] after.entries@[k]) || (
            !after.entries@[k].measured && after.entries@[k].height == before.estimate),
{
    if before.revision == Some(revision) && keys_match(before.entries@, blocks) {
        assert forall|k: int| 0 <= k < blocks.len() implies before.entries@.contains(
            #[trigger] after.entries@[k],
        ) || (!after.entries@[k].measured && after.entries@[k].height == before.estimate) by {
            assert(before.entries@[k] == after.entries@[k]);
        }
    } else {
        lemma_synced(before.entries@, blocks, before.estimate, blocks.len() as int);
    }
}

/// A range that no change meets moves as a whole: it keeps its length.
pub proof fn law_untouched_ranges_keep_their_length(changes: Seq<TextChange>, range: TextRange)
    requires
        range.wf(),
        forall|k: int| 0 <= k < changes.len() ==> (#[trigger] changes[k]).old.wf(),
        !touched(changes, range),
    ensures
        mapped_after(changes, range.end.value as int) - mapped_before(
            changes,
            range.start.value as int,
        ) == range.end.value - range.start.value,
    decreases changes.len(),
{
    if changes.len() > 0 {
        let last = changes.last();
        assert(changes[changes.len() - 1] == last);
        assert(last.old.wf());
        let front = changes.drop_last();
        assert forall|k: int| 0 <= k < front.len() implies (#[trigger] front[k]).old.wf() by {
            assert(front[k] == changes[k]);
        }
        assert(!touched(front, range)) by {
            if touched(front, range) {
                let k = choose|k: int|
                    0 <= k < front.len() && (#[trigger] front[k]).old.start.value
                        <= range.end.value && front[k].old.end.value >= range.start.value;
                assert(changes[k] == front[k]);
                assert(touched(changes, range));
            }
        }
        law_untouched_ranges_keep_their_length(front, range);
    }
}

impl ViewportLayout {
    /// A layout without blocks, in which a block has the estimated height until it is
    /// measured.
    pub fn new(estimate: u32) -> (r: ViewportLayout)
        ensures
            r.estimate == estimate,
            r.backend == LayoutBackend::Metrics,
            r.entries@.len() == 0,
            r.revision is None,
            r.remapped == 0,
            r.invalidated == 0,
    {
        ViewportLayout {
            estimate,
            backend: LayoutBackend::Metrics,
            entries: Vec::new(),
            revision: None,
            remapped: 0,
            invalidated: 0,
        }
    }

    /// Where heights are measured from.
    pub fn backend(&self) -> (r: LayoutBackend)
        ensures
            r == self.backend,
    {
        self.backend
    }

    /// Measures from elsewhere. What was measured goes back to the estimate: lines
    /// break differently there.
    pub fn set_backend(&mut self, backend: LayoutBackend)
        ensures
            final(self).backend == backend,
            final(self).estimate == old(self).estimate,
            final(self).revision == old(self).revision,
            final(self).remapped == old(self).remapped,
            final(self).invalidated == old(self).invalidated,
            final(self).entries@ == (if old(self).backend == backend {
                old(self).entries@
            } else {
                Seq::new(
                    old(self).entries@.len(),
                    |k: int|
                        ViewportEntry {
                            key: old(self).entries@[k].key,
                            height: old(self).estimate,
                            measured: false,
                        },
                )
            }),
    {
        if self.backend == backend {
            return ;
        }
        self.backend = backend;
        let mut reset: Vec<ViewportEntry> = Vec::new();
        let mut i: usize = 0;
        while i < self.entries.len()
            invariant
                i <= self.entries@.len(),
                self.entries@ == old(self).entries@,
                self.estimate == old(self).estimate,
                self.revision == old(self).revision,
                self.remapped == old(self).remapped,
                self.invalidated == old(self).invalidated,
                self.backend == backend,
                reset@.len() == i,
                forall|k: int|
                    0 <= k < i ==> reset@[k] == (ViewportEntry {
                        key: (#[trigger] old(self).entries@[k]).key,
                        height: old(self).estimate,
                        measured: false,
                    }),
            decreases self.entries@.len() - i,
        {
            reset.push(
                ViewportEntry {
                    key: self.entries[i].key,
                    height: self.estimate,
                    measured: false,
                },
            );
            i += 1;
        }
        self.entries = reset;
        proof {
            let all = old(self).entries@;
            let estimate = old(self).estimate;
            assert(self.entries@ =~= Seq::new(
                all.len(),
                |k: int| ViewportEntry { key: all[k].key, height: estimate, measured: false },
            ));
        }
    }

    /// The revision whose blocks these are.
    pub fn revision(&self) -> (r: Option<Revision>)
        ensures
            r == self.revision,
    {
        self.revision
    }

    /// The counters.
    pub fn stats(&self) -> (r: ViewportStats)
        ensures
            r == (ViewportStats {
                entries: self.entries@.len() as usize,
                measured: measured_count(self.entries@) as usize,
                remapped: self.remapped,
                invalidated: self.invalidated,
            }),
            r.measured == measured_count(self.entries@),
    {
        let mut measured: usize = 0;
        let mut i: usize = 0;
        while i < self.entries.len()
            invariant
                i <= self.entries@.len(),
                measured <= i,
                measured == measured_count(self.entries@.take(i as int)),
            decreases self.entries@.len() - i,
        {
            proof {
                let now = self.entries@.take(i + 1);
                assert(now.drop_last() =~= self.entries@.take(i as int));
                assert(now.last() == self.entries@[i as int]);
            }
            if self.entries[i].measured {
                measured += 1;
            }
            i += 1;
        }
        assert(self.entries@.take(self.entries@.len() as int) =~= self.entries@);
        ViewportStats {
            entries: self.entries.len(),
            measured,
            remapped: self.remapped,
            invalidated: self.invalidated,
        }
    }

    fn has_keys(&self, blocks: &[BlockKey]) -> (r: bool)
        ensures
            r == keys_match(self.entries@, blocks@),
    {
        if self.entries.len() != blocks.len() {
            return false;
        }
        let mut i: usize = 0;
        while i < blocks.len()
            invariant
                i <= blocks@.len() == self.entries@.len(),
                forall|k: int| 0 <= k < i ==> (#[trigger] self.entries@[k]).key == blocks@[k],
            decreases blocks@.len() - i,
        {
            if self.entries[i].key != blocks[i] {
                assert(self.entries@[i as int].key != blocks@[i as int]);
                return false;
            }
            i += 1;
        }
        true
    }

    /// Brings the layout to the blocks of a revision. A block that was there keeps its
    /// height.
    pub fn sync(&mut self, revision: Revision, blocks: &[BlockKey])
        ensures
            after_sync(*old(self), *final(self), revision, blocks@),
    {
        if self.revision == Some(revision) && self.has_keys(blocks) {
            return ;
        }
        let ghost earlier = self.entries@;
        let estimate = self.estimate;
        let mut used: Vec<bool> = Vec::new();
        let mut i: usize = 0;
        while i < self.entries.len()
            invariant
                i <= self.entries@.len(),
                *self == *old(self),
                used@.len() == i,
                forall|k: int| 0 <= k < i ==> !used@[k],
            decreases self.entries@.len() - i,
        {
            used.push(false);
            i += 1;
        }
        assert(used@ =~= Seq::new(earlier.len(), |k: int| false));
        let mut entries: Vec<ViewportEntry> = Vec::new();
        let mut b: usize = 0;
        while b < blocks.len()
            invariant
                b <= blocks@.len(),
                *self == *old(self),
                earlier == self.entries@,
                estimate == self.estimate,
                used@.len() == earlier.len(),
                entries@ == synced(earlier, blocks@, estimate, b as int).entries,
                used@ == synced(earlier, blocks@, estimate, b as int).used,
            decreases blocks@.len() - b,
        {
            let key = blocks[b];
            let place = self.find_unused(&used, key);
            if place < self.entries.len() {
                used.set(place, true);
                entries.push(self.entries[place]);
            } else {
                entries.push(ViewportEntry { key, height: estimate, measured: false });
            }
            b += 1;
        }
        let left = count_unset(&used);
        self.invalidated = count_up(self.invalidated, left);
        self.entries = entries;
        self.revision = Some(revision);
    }

    fn find_unused(&self, used: &Vec<bool>, key: BlockKey) -> (r: usize)
        requires
            used@.len() == self.entries@.len(),
        ensures
            r == unused_under(self.entries@, used@, key, 0),
            r <= self.entries@.len(),
    {
        let mut i: usize = 0;
        while i < self.entries.len() && (used[i] || self.entries[i].key != key)
            invariant
                i <= self.entries@.len(),
                used@.len() == self.entries@.len(),
                unused_under(self.entries@, used@, key, i as int) == unused_under(
                    self.entries@,
                    used@,
                    key,
                    0,
                ),
            decreases self.entries@.len() - i,
        {
            i += 1;
        }
        i
    }

    /// Carries the heights over an edit, then brings the layout to the new blocks. The
    /// height of a block that the edit meets is given up. `snapshot` and `parsed` are
    /// the revisions of the source and of the blocks.
    pub fn map_through(
        &mut self,
        changes: &ChangeSet,
        snapshot: Revision,
        parsed: Revision,
        blocks: &[BlockKey],
    ) -> (r: Result<(), ViewportError>)
        ensures
            ({
                let before = *old(self);
                let after = *final(self);
                let made = carried_entries(
                    before.entries@,
                    changes.changes@,
                    before.entries@.len() as int,
                );
                if before.revision is Some && before.revision != Some(changes.before) {
                    &&& r == Err::<(), ViewportError>(
                        ViewportError::RevisionMismatch {
                            expected: changes.before,
                            actual: before.revision->Some_0,
                        },
                    )
                    &&& after == before
                } else if snapshot != changes.after || parsed != changes.after {
                    &&& r == Err::<(), ViewportError>(
                        ViewportError::RevisionMismatch {
                            expected: changes.after,
                            actual: snapshot,
                        },
                    )
                    &&& after == before
                } else if made.failed is Some {
                    &&& r == Err::<(), ViewportError>(made.failed->Some_0)
                    &&& after == (ViewportLayout {
                        remapped: counted(before.remapped, made.entries.len() as int),
                        invalidated: counted(before.invalidated, made.touched),
                        ..before
                    })
                } else {
                    &&& r is Ok
                    &&& exists|middle: ViewportLayout| #[trigger]
                        carried_layout(before, middle, changes) && if before.revision is None
                            && before.entries@.len() == 0 {
                            after == middle
                        } else {
                            after_sync(middle, after, changes.after, blocks@)
                        }
                }
            }),
    {
        let had_state = self.revision.is_some() || self.entries.len() > 0;
        if let Some(revision) = self.revision {
            if revision != changes.before {
                return Err(
                    ViewportError::RevisionMismatch {
                        expected: changes.before,
                        actual: revision,
                    },
                );
            }
        }
        if snapshot != changes.after || parsed != changes.after {
            return Err(
                ViewportError::RevisionMismatch { expected: changes.after, actual: snapshot },
            );
        }
        let carried = carry_entries(&self.entries, changes);
        self.remapped = count_up(self.remapped, carried.entries.len());
        self.invalidated = count_up(self.invalidated, carried.touched);
        if let Some(error) = carried.failed {
            return Err(error);
        }
        self.entries = carried.entries;
        self.revision = Some(changes.after);
        let ghost middle = *self;
        if had_state {
            self.sync(changes.after, blocks);
        }
        assert(carried_layout(*old(self), middle, changes));
        Ok(())
    }

    /// Forgets all blocks.
    pub fn clear(&mut self)
        ensures
            final(self).entries@.len() == 0,
            final(self).revision is None,
            final(self).invalidated == counted(
                old(self).invalidated,
                old(self).entries@.len() as int,
            ),
            final(self).remapped == old(self).remapped,
            final(self).estimate == old(self).estimate,
            final(self).backend == old(self).backend,
    {
        self.invalidated = count_up(self.invalidated, self.entries.len());
        self.entries = Vec::new();
        self.revision = None;
    }

    /// The blocks between the one found at the viewport's top and the one found at its
    /// bottom, margins of the viewport included. Where nothing is found the first block
    /// stands for the top, and the top for the bottom.
    pub fn visible_range(&self, top: Option<usize>, bottom: Option<usize>) -> (r: ViewportRange)
        ensures
            ({
                let count = self.entries@.len() as int;
                let first = match top {
                    Some(first) => first as int,
                    None => 0,
                };
                let last = match bottom {
                    Some(last) => last as int,
                    None => first,
                };
                if count == 0 {
                    r.start == 0 && r.end == 0
                } else {
                    r.start == first && r.end == if last + 1 <= count {
                        last + 1
                    } else {
                        count
                    }
                }
            }),
    {
        let count = self.entries.len();
        if count == 0 {
            return ViewportRange { start: 0, end: 0 };
        }
        let start: usize = match top {
            Some(first) => first,
            None => 0,
        };
        let last: usize = match bottom {
            Some(last) => last,
            None => start,
        };
        let end: usize = if last < count {
            last + 1
        } else {
            count
        };
        ViewportRange { start, end }
    }

    /// Puts a measured height in place of a block's height, and says whether anything
    /// changed. A height that is negative or not finite is refused.
    pub fn set_block_height(&mut self, index: usize, height: u32) -> (r: Result<
        bool,
        ViewportError,
    >)
        ensures
            if !is_height(height) {
                &&& r == Err::<bool, ViewportError>(ViewportError::InvalidHeight(height))
                &&& *final(self) == *old(self)
            } else if index < old(self).entries@.len() {
                let entry = old(self).entries@[index as int];
                &&& r == Ok::<bool, ViewportError>(
                    !same_height(entry.height, height) || !entry.measured,
                )
                &&& final(self).entries@ == old(self).entries@.update(
                    index as int,
                    ViewportEntry { key: entry.key, height, measured: true },
                )
                &&& final(self).estimate == old(self).estimate
                &&& final(self).backend == old(self).backend
                &&& final(self).revision == old(self).revision
                &&& final(self).remapped == old(self).remapped
                &&& final(self).invalidated == old(self).invalidated
            } else {
                &&& r == Err::<bool, ViewportError>(
                    ViewportError::OutOfBounds { index, len: old(self).entries@.len() as usize },
                )
                &&& *final(self) == *old(self)
            },
    {
        if height >= INFINITY_BITS && height != NEGATIVE_ZERO_BITS {
            return Err(ViewportError::InvalidHeight(height));
        }
        if index >= self.entries.len() {
            return Err(ViewportError::OutOfBounds { index, len: self.entries.len() });
        }
        let entry = self.entries[index];
        let same = entry.height == height || (entry.height == 0 && height == NEGATIVE_ZERO_BITS) || (
        entry.height == NEGATIVE_ZERO_BITS && height == 0);
        let changed = !same || !entry.measured;
        self.entries.set(index, ViewportEntry { key: entry.key, height, measured: true });
        Ok(changed)
    }

    /// Where the blocks begin that wait to be measured, in document order and at most
    /// `limit` of them.
    pub fn unmeasured_sources(&self, limit: usize) -> (r: Vec<ByteOffset>)
        ensures
            r@ == waiting(self.entries@, limit as nat),
    {
        let mut out: Vec<ByteOffset> = Vec::new();
        let mut i: usize = 0;
        assert(self.entries@.take(0) =~= Seq::empty());
        while i < self.entries.len()
            invariant
                i <= self.entries@.len(),
                out@ == waiting(self.entries@.take(i as int), limit as nat),
            decreases self.entries@.len() - i,
        {
            proof {
                let now = self.entries@.take(i + 1);
                assert(now.drop_last() =~= self.entries@.take(i as int));
                assert(now.last() == self.entries@[i as int]);
            }
            if !self.entries[i].measured && out.len() < limit {
                out.push(self.entries[i].key.range.start);
            }
            i += 1;
        }
        assert(self.entries@.take(self.entries@.len() as int) =~= self.entries@);
        out
    }

    /// Has a block measured again. Until then it keeps its height, so that what stands
    /// around it does not move.
    pub fn invalidate_block_measurement(&mut self, index: usize)
        ensures
            final(self).entries@ == (if index < old(self).entries@.len() {
                old(self).entries@.update(
                    index as int,
                    ViewportEntry { measured: false, ..old(self).entries@[index as int] },
                )
            } else {
                old(self).entries@
            }),
            final(self).estimate == old(self).estimate,
            final(self).backend == old(self).backend,
            final(self).revision == old(self).revision,
            final(self).remapped == old(self).remapped,
            final(self).invalidated == old(self).invalidated,
    {
        if index < self.entries.len() {
            let entry = self.entries[index];
            self.entries.set(
                index,
                ViewportEntry { key: entry.key, height: entry.height, measured: false },
            );
        }
    }

    /// The blocks of a range with their heights.
    pub fn snapshot(&self, revision: Revision, blocks: &[BlockKey], range: ViewportRange) -> (r:
        Result<ViewportSnapshot, ViewportError>)
        requires
            range.wf(),
        ensures
            ({
                let len = if self.entries@.len() <= blocks@.len() {
                    self.entries@.len()
                } else {
                    blocks@.len()
                };
                if self.revision != Some(revision) {
                    r == Err::<ViewportSnapshot, ViewportError>(
                        ViewportError::RevisionMismatch {
                            expected: revision,
                            actual: match self.revision {
                                Some(actual) => actual,
                                None => (Revision { value: 0 }),
                            },
                        },
                    )
                } else if range.end > len {
                    r == Err::<ViewportSnapshot, ViewportError>(
                        ViewportError::OutOfBounds { index: range.end, len: len as usize },
                    )
                } else {
                    &&& r is Ok
                    &&& r->Ok_0.revision == revision
                    &&& r->Ok_0.range == range
                    &&& r->Ok_0.blocks@ == Seq::new(
                        (range.end - range.start) as nat,
                        |k: int|
                            ViewportBlock {
                                index: (range.start + k) as usize,
                                block: blocks@[range.start + k],
                                height: self.entries@[range.start + k].height,
                                measured: self.entries@[range.start + k].measured,
                            },
                    )
                }
            }),
    {
        if self.revision != Some(revision) {
            let actual = match self.revision {
                Some(actual) => actual,
                None => Revision::new(0),
            };
            return Err(ViewportError::RevisionMismatch { expected: revision, actual });
        }
        let len = if self.entries.len() <= blocks.len() {
            self.entries.len()
        } else {
            blocks.len()
        };
        if range.end > len {
            return Err(ViewportError::OutOfBounds { index: range.end, len });
        }
        let mut out: Vec<ViewportBlock> = Vec::new();
        let mut i: usize = range.start;
        while i < range.end
            invariant
                range.start <= i <= range.end <= len,
                len <= self.entries@.len(),
                len <= blocks@.len(),
                out@.len() == i - range.start,
                forall|k: int|
                    0 <= k < out@.len() ==> (#[trigger] out@[k]) == (ViewportBlock {
                        index: (range.start + k) as usize,
                        block: blocks@[range.start + k],
                        height: self.entries@[range.start + k].height,
                        measured: self.entries@[range.start + k].measured,
                    }),
            decreases range.end - i,
        {
            out.push(
                ViewportBlock {
                    index: i,
                    block: blocks[i],
                    height: self.entries[i].height,
                    measured: self.entries[i].measured,
                },
            );
            i += 1;
        }
        assert(out@ =~= Seq::new(
            (range.end - range.start) as nat,
            |k: int|
                ViewportBlock {
                    index: (range.start + k) as usize,
                    block: blocks@[range.start + k],
                    height: self.entries@[range.start + k].height,
                    measured: self.entries@[range.start + k].measured,
                },
        ));
        Ok(ViewportSnapshot { revision, range, blocks: out })
    }
}

fn count_unset(flags: &Vec<bool>) -> (r: usize)
    ensures
        r == unset(flags@),
{
    let mut count: usize = 0;
    let mut i: usize = 0;
    while i < flags.len()
        invariant
            i <= flags@.len(),
            count <= i,
            count == unset(flags@.take(i as int)),
        decreases flags@.len() - i,
    {
        proof {
            let now = flags@.take(i + 1);
            assert(now.drop_last() =~= flags@.take(i as int));
            assert(now.last() == flags@[i as int]);
        }
        if !flags[i] {
            count += 1;
        }
        i += 1;
    }
    assert(flags@.take(flags@.len() as int) =~= flags@);
    count
}

/// The blocks that wait to be measured are the first ones that are not, in order: every
/// waiting block is one, and where there is room in the list none is missing. `k` is the
/// number of an entry.
pub proof fn law_waiting_blocks_are_not_measured(entries: Seq<ViewportEntry>, limit: nat, k: int)
    requires
        0 <= k < entries.len(),
    ensures
        waiting(entries, limit).len() <= limit,
        waiting(entries, limit).len() < limit && !entries[k].measured ==> waiting(
            entries,
            limit,
        ).contains(entries[k].key.range.start),
        forall|m: int|
            0 <= m < waiting(entries, limit).len() ==> exists|n: int|
                0 <= n < entries.len() && !(#[trigger] entries[n]).measured
                    && entries[n].key.range.start == #[trigger] waiting(entries, limit)[m],
        !entries[k].measured && !waiting(entries, limit).contains(entries[k].key.range.start)
            ==> waiting(entries.take(k), limit).len() == limit,
    decreases entries.len(),
{
    let front = entries.drop_last();
    let before = waiting(front, limit);
    let all = waiting(entries, limit);
    let last = entries.len() - 1;
    if last > 0 {
        law_waiting_blocks_are_not_measured(
            front,
            limit,
            if k < last {
                k
            } else {
                0
            },
        );
    }
    assert(before.len() <= limit);
    if k < last {
        assert(front[k] == entries[k]);
        assert(front.take(k) =~= entries.take(k));
        if before.contains(entries[k].key.range.start) {
            let m = choose|m: int|
                0 <= m < before.len() && before[m] == entries[k].key.range.start;
            assert(all[m] == before[m]);
        }
    } else {
        assert(entries.take(k) =~= front);
        if !entries[k].measured && before.len() < limit {
            assert(all[before.len() as int] == entries[k].key.range.start);
        }
    }
    assert forall|m: int| 0 <= m < all.len() implies exists|n: int|
        0 <= n < entries.len() && !(#[trigger] entries[n]).measured && entries[n].key.range.start
            == #[trigger] all[m] by {
        if m < before.len() {
            assert(all[m] == before[m]);
            let n = choose|n: int|
                0 <= n < front.len() && !(#[trigger] front[n]).measured
                    && front[n].key.range.start == before[m];
            assert(entries[n] == front[n]);
        } else {
            assert(!entries[last].measured);
        }
    }
}

/// A change drops the entries that it touches and no others: each of the others is kept,
/// with its height, where its range is now. `k` is the number of an entry.
pub proof fn law_untouched_entries_are_carried(
    entries: Seq<ViewportEntry>,
    changes: Seq<TextChange>,
    count: int,
    k: int,
)
    requires
        0 <= k < count <= entries.len(),
        carried_entries(entries, changes, count).failed is None,
    ensures
        ({
            let made = carried_entries(entries, changes, count);
            &&& made.entries.len() + made.touched == count
            &&& !touched(changes, entries[k].key.range) ==> exists|m: int|
                0 <= m < made.entries.len() && is_carried(
                    changes,
                    entries[k],
                    #[trigger] made.entries[m],
                )
        }),
    decreases count,
{
    let before = carried_entries(entries, changes, count - 1);
    let made = carried_entries(entries, changes, count);
    if count > 1 {
        law_untouched_entries_are_carried(
            entries,
            changes,
            count - 1,
            if k < count - 1 {
                k
            } else {
                0
            },
        );
    }
    if !touched(changes, entries[k].key.range) {
        if k < count - 1 {
            let m = choose|m: int|
                0 <= m < before.entries.len() && is_carried(
                    changes,
                    entries[k],
                    #[trigger] before.entries[m],
                );
            assert(made.entries[m] == before.entries[m]);
        } else {
            lemma_mapped_is_no_less(changes, entries[k].key.range);
            assert(is_carried(changes, entries[k], made.entries[before.entries.len() as int]));
        }
    }
}

proof fn lemma_mapped_is_no_less(changes: Seq<TextChange>, range: TextRange)
    ensures
        mapped_before(changes, range.start.value as int) >= 0,
        mapped_after(changes, range.end.value as int) >= 0,
    decreases changes.len(),
{
    if changes.len() > 0 {
        lemma_mapped_is_no_less(changes.drop_last(), range);
    }
}

/// Whether `after` is `before` where the changes moved it: the same block, as high as it was.
pub open spec fn is_carried(
    changes: Seq<TextChange>,
    before: ViewportEntry,
    after: ViewportEntry,
) -> bool {
    &&& after.height == before.height
    &&& after.measured == before.measured
    &&& after.key.kind == before.key.kind
    &&& after.key.range.start.value == mapped_before(changes, before.key.range.start.value as int)
    &&& after.key.range.end.value == mapped_after(changes, before.key.range.end.value as int)
}

} // verus!
