//! Projections of one revision, kept until an edit touches them.
use crate::block::BlockKey;
use crate::cache::{count_up, counted, kept, retain};
use crate::offset::{Revision, TextRange};
use vstd::prelude::*;

verus! {

/// Counters of a projection cache, over its whole life.
#[derive(Clone, Copy, Debug, Default, PartialEq, Eq, Structural)]
pub struct ProjectionCacheStats {
    pub entries: usize,
    pub builds: u64,
    pub hits: u64,
    pub remapped: u64,
    pub invalidated: u64,
}

impl ProjectionCacheStats {
    /// The projections that are kept.
    pub fn entries(self) -> (r: usize)
        ensures
            r == self.entries,
    {
        self.entries
    }

    /// How often a projection was made.
    pub fn builds(self) -> (r: u64)
        ensures
            r == self.builds,
    {
        self.builds
    }

    /// How often a kept projection was used.
    pub fn hits(self) -> (r: u64)
        ensures
            r == self.hits,
    {
        self.hits
    }

    /// How many projections were carried over an edit.
    pub fn remapped(self) -> (r: u64)
        ensures
            r == self.remapped,
    {
        self.remapped
    }

    /// How many projections were dropped.
    pub fn invalidated(self) -> (r: u64)
        ensures
            r == self.invalidated,
    {
        self.invalidated
    }
}

/// What a projection is found by.
#[derive(Clone, Copy, Debug, PartialEq, Eq, Structural)]
pub enum ProjectionKey {
    /// A range of source, read as inline text.
    Range(TextRange),
    /// A block.
    Block(BlockKey),
}

impl ProjectionKey {
    /// The same key over another range.
    pub open spec fn spec_remapped(self, range: TextRange) -> ProjectionKey {
        match self {
            ProjectionKey::Range(_) => ProjectionKey::Range(range),
            ProjectionKey::Block(block) => ProjectionKey::Block(
                BlockKey { range, kind: block.kind },
            ),
        }
    }

    fn remapped(self, range: TextRange) -> (r: ProjectionKey)
        ensures
            r == self.spec_remapped(range),
    {
        match self {
            ProjectionKey::Range(_) => ProjectionKey::Range(range),
            ProjectionKey::Block(block) => ProjectionKey::Block(
                BlockKey { range, kind: block.kind },
            ),
        }
    }
}

/// A projection with its key and the revision it was made of.
#[derive(Debug)]
pub struct ProjectionEntry<P> {
    pub key: ProjectionKey,
    pub revision: Revision,
    pub projection: P,
}

/// What becomes of a projection when the source is edited outside of it.
#[derive(Debug)]
pub struct Remapped<P> {
    pub range: TextRange,
    pub projection: P,
}

/// The projections of one document.
#[derive(Debug)]
pub struct ProjectionCache<P> {
    pub entries: Vec<ProjectionEntry<P>>,
    pub stats: ProjectionCacheStats,
}

/// The entries of `revision`.
pub open spec fn current_entries<P>(
    entries: Seq<ProjectionEntry<P>>,
    revision: Revision,
) -> Seq<ProjectionEntry<P>> {
    kept(entries, Seq::new(entries.len(), |k: int| entries[k].revision == revision))
}

/// The first entry under `key` from `from` on, or the number of entries.
pub open spec fn entry_under<P>(
    entries: Seq<ProjectionEntry<P>>,
    key: ProjectionKey,
    from: int,
) -> int
    decreases entries.len() - from,
{
    if 0 <= from < entries.len() && entries[from].key != key {
        entry_under(entries, key, from + 1)
    } else {
        from
    }
}

/// Where the entry under `key` stands once other revisions are dropped.
pub open spec fn place_under<P>(
    entries: Seq<ProjectionEntry<P>>,
    revision: Revision,
    key: ProjectionKey,
) -> int {
    entry_under(current_entries(entries, revision), key, 0)
}

/// Whether an entry of `revision` stands under `key`.
pub open spec fn found_under<P>(
    entries: Seq<ProjectionEntry<P>>,
    revision: Revision,
    key: ProjectionKey,
) -> bool {
    place_under(entries, revision, key) < current_entries(entries, revision).len()
}

/// The counters after the entries of other revisions were dropped.
pub open spec fn without_stale<P>(
    cache: ProjectionCache<P>,
    revision: Revision,
) -> ProjectionCacheStats {
    ProjectionCacheStats {
        invalidated: counted(
            cache.stats.invalidated,
            cache.entries@.len() - current_entries(cache.entries@, revision).len(),
        ),
        ..cache.stats
    }
}

/// What a lookup that finds its entry leaves.
pub open spec fn after_hit<P>(
    before: ProjectionCache<P>,
    after: ProjectionCache<P>,
    revision: Revision,
) -> bool {
    &&& after.entries@ == current_entries(before.entries@, revision)
    &&& after.stats == (ProjectionCacheStats {
        hits: counted(before.stats.hits, 1),
        ..without_stale(before, revision)
    })
}

/// What a lookup leaves that does not find its entry, where making it gave `made`.
pub open spec fn after_build<P, E>(
    before: ProjectionCache<P>,
    after: ProjectionCache<P>,
    revision: Revision,
    key: ProjectionKey,
    made: Result<P, E>,
) -> bool {
    let current = current_entries(before.entries@, revision);
    match made {
        Ok(projection) => {
            &&& after.entries@ == current.push(ProjectionEntry { key, revision, projection })
            &&& after.stats == (ProjectionCacheStats {
                builds: counted(before.stats.builds, 1),
                ..without_stale(before, revision)
            })
        },
        Err(_) => after.entries@ == current && after.stats == without_stale(before, revision),
    }
}

/// The entries that are carried over an edit: those whose outcome says where they
/// are now.
pub open spec fn carried<P>(
    entries: Seq<ProjectionEntry<P>>,
    outcomes: Seq<Option<Remapped<P>>>,
    revision: Revision,
) -> Seq<ProjectionEntry<P>>
    decreases entries.len(),
{
    if entries.len() == 0 {
        Seq::empty()
    } else {
        let front = carried(entries.drop_last(), outcomes, revision);
        match outcomes[entries.len() - 1] {
            Some(mapped) => front.push(
                ProjectionEntry {
                    key: entries.last().key.spec_remapped(mapped.range),
                    revision,
                    projection: mapped.projection,
                },
            ),
            None => front,
        }
    }
}

/// Whether `map` may fail on `entry` with `error`.
pub open spec fn fails_on<P, E, F: Fn(&ProjectionEntry<P>) -> Result<Option<Remapped<P>>, E>>(
    map: F,
    entry: ProjectionEntry<P>,
    error: E,
) -> bool {
    map.ensures((&entry,), Err(error))
}

/// Whether a key names no block, or one of `blocks`.
pub open spec fn still_there(key: ProjectionKey, blocks: Seq<BlockKey>) -> bool {
    match key {
        ProjectionKey::Range(_) => true,
        ProjectionKey::Block(block) => blocks.contains(block),
    }
}

/// The entries that name no block, or one of `blocks`.
pub open spec fn entries_in<P>(
    entries: Seq<ProjectionEntry<P>>,
    blocks: Seq<BlockKey>,
) -> Seq<ProjectionEntry<P>> {
    kept(entries, Seq::new(entries.len(), |k: int| still_there(entries[k].key, blocks)))
}

fn holds_block(blocks: &[BlockKey], wanted: BlockKey) -> (r: bool)
    ensures
        r == blocks@.contains(wanted),
{
    let mut i: usize = 0;
    while i < blocks.len()
        invariant
            i <= blocks@.len(),
            forall|k: int| 0 <= k < i ==> blocks@[k] != wanted,
        decreases blocks@.len() - i,
    {
        if blocks[i] == wanted {
            return true;
        }
        i += 1;
    }
    false
}

impl<P> Default for ProjectionCache<P> {
    fn default() -> (r: ProjectionCache<P>)
        ensures
            r.entries@.len() == 0,
            r.stats == (ProjectionCacheStats {
                entries: 0,
                builds: 0,
                hits: 0,
                remapped: 0,
                invalidated: 0,
            }),
    {
        ProjectionCache::new()
    }
}

impl<P> ProjectionCache<P> {
    /// A cache that holds nothing.
    pub fn new() -> (r: ProjectionCache<P>)
        ensures
            r.entries@.len() == 0,
            r.stats == (ProjectionCacheStats {
                entries: 0,
                builds: 0,
                hits: 0,
                remapped: 0,
                invalidated: 0,
            }),
    {
        ProjectionCache {
            entries: Vec::new(),
            stats: ProjectionCacheStats {
                entries: 0,
                builds: 0,
                hits: 0,
                remapped: 0,
                invalidated: 0,
            },
        }
    }

    /// Drops the entries of other revisions.
    fn drop_stale(&mut self, revision: Revision)
        ensures
            final(self).entries@ == current_entries(old(self).entries@, revision),
            final(self).stats == (ProjectionCacheStats {
                invalidated: counted(
                    old(self).stats.invalidated,
                    old(self).entries@.len() - final(self).entries@.len(),
                ),
                ..old(self).stats
            }),
    {
        let mut keep: Vec<bool> = Vec::new();
        let mut i: usize = 0;
        while i < self.entries.len()
            invariant
                i <= self.entries@.len(),
                *self == *old(self),
                keep@.len() == i,
                forall|k: int|
                    0 <= k < i ==> keep@[k] == ((#[trigger] self.entries@[k]).revision == revision),
            decreases self.entries@.len() - i,
        {
            keep.push(self.entries[i].revision == revision);
            i += 1;
        }
        proof {
            let entries = self.entries@;
            assert(keep@ =~= Seq::new(entries.len(), |k: int| entries[k].revision == revision));
        }
        let dropped = retain(&mut self.entries, &keep);
        self.stats.invalidated = count_up(self.stats.invalidated, dropped);
    }

    /// The projection of a range of source, made where it is missing.
    pub fn get_or_build<E, F: FnOnce() -> Result<P, E>>(
        &mut self,
        revision: Revision,
        range: TextRange,
        build: F,
    ) -> (r: Result<&P, E>)
        requires
            build.requires(()),
        ensures
            ({
                let key = ProjectionKey::Range(range);
                let place = place_under(old(self).entries@, revision, key);
                &&& found_under(old(self).entries@, revision, key) ==> after_hit(
                    *old(self),
                    *final(self),
                    revision,
                ) && r is Ok
                &&& !found_under(old(self).entries@, revision, key) ==> exists|made: Result<P, E>|
                    {
                        &&& #[trigger] build.ensures((), made)
                        &&& after_build(*old(self), *final(self), revision, key, made)
                        &&& match made {
                            Ok(_) => r is Ok,
                            Err(error) => r == Err::<&P, E>(error),
                        }
                    }
                &&& r matches Ok(projection) ==> place < final(self).entries@.len()
                    && *projection == final(self).entries@[place].projection
            }),
    {
        match self.get_or_build_key(revision, ProjectionKey::Range(range), build) {
            Ok(place) => Ok(&self.entries[place].projection),
            Err(error) => Err(error),
        }
    }

    /// The projection of a block, made where it is missing.
    pub fn get_or_build_block<E, F: FnOnce() -> Result<P, E>>(
        &mut self,
        revision: Revision,
        block: BlockKey,
        build: F,
    ) -> (r: Result<&P, E>)
        requires
            build.requires(()),
        ensures
            ({
                let key = ProjectionKey::Block(block);
                let place = place_under(old(self).entries@, revision, key);
                &&& found_under(old(self).entries@, revision, key) ==> after_hit(
                    *old(self),
                    *final(self),
                    revision,
                ) && r is Ok
                &&& !found_under(old(self).entries@, revision, key) ==> exists|made: Result<P, E>|
                    {
                        &&& #[trigger] build.ensures((), made)
                        &&& after_build(*old(self), *final(self), revision, key, made)
                        &&& match made {
                            Ok(_) => r is Ok,
                            Err(error) => r == Err::<&P, E>(error),
                        }
                    }
                &&& r matches Ok(projection) ==> place < final(self).entries@.len()
                    && *projection == final(self).entries@[place].projection
            }),
    {
        match self.get_or_build_key(revision, ProjectionKey::Block(block), build) {
            Ok(place) => Ok(&self.entries[place].projection),
            Err(error) => Err(error),
        }
    }

    /// Finds the projection under `key` at `revision`, making it where it is missing,
    /// and returns its place. Entries of other revisions are dropped first. Where it
    /// cannot be made, nothing is added.
    pub fn get_or_build_key<E, F: FnOnce() -> Result<P, E>>(
        &mut self,
        revision: Revision,
        key: ProjectionKey,
        build: F,
    ) -> (r: Result<usize, E>)
        requires
            build.requires(()),
        ensures
            found_under(old(self).entries@, revision, key) ==> ({
                &&& r == Ok::<usize, E>(place_under(old(self).entries@, revision, key) as usize)
                &&& after_hit(*old(self), *final(self), revision)
            }),
            !found_under(old(self).entries@, revision, key) ==> exists|made: Result<P, E>|
                {
                    &&& #[trigger] build.ensures((), made)
                    &&& after_build(*old(self), *final(self), revision, key, made)
                    &&& match made {
                        Ok(_) => r == Ok::<usize, E>(
                            place_under(old(self).entries@, revision, key) as usize,
                        ),
                        Err(error) => r == Err::<usize, E>(error),
                    }
                },
            r matches Ok(place) ==> place == place_under(old(self).entries@, revision, key)
                && place < final(self).entries@.len()
                && final(self).entries@[place as int].key == key
                && final(self).entries@[place as int].revision == revision,
    {
        self.drop_stale(revision);
        let ghost current = self.entries@;
        let mut i: usize = 0;
        while i < self.entries.len() && self.entries[i].key != key
            invariant
                i <= self.entries@.len(),
                self.entries@ == current,
                entry_under(current, key, i as int) == entry_under(current, key, 0),
            decreases self.entries@.len() - i,
        {
            i += 1;
        }
        proof {
            law_current_entries(old(self).entries@, revision);
        }
        if i < self.entries.len() {
            self.stats.hits = count_up(self.stats.hits, 1);
            return Ok(i);
        }
        match build() {
            Ok(projection) => {
                self.entries.push(ProjectionEntry { key, revision, projection });
                self.stats.builds = count_up(self.stats.builds, 1);
                Ok(i)
            },
            Err(error) => Err(error),
        }
    }

    /// Carries the entries over an edit to `revision`. `map` says of each projection
    /// what becomes of it: where it is now, or that the edit touched it. Where that
    /// fails for one, the cache stays as it was.
    pub fn map_through<E, F: Fn(&ProjectionEntry<P>) -> Result<Option<Remapped<P>>, E>>(
        &mut self,
        revision: Revision,
        map: F,
    ) -> (r: Result<(), E>)
        requires
            forall|k: int|
                0 <= k < old(self).entries@.len() ==> #[trigger] map.requires(
                    (&old(self).entries@[k],),
                ),
        ensures
            r is Ok ==> exists|outcomes: Seq<Option<Remapped<P>>>|
                {
                    &&& outcomes.len() == old(self).entries@.len()
                    &&& final(self).entries@ == #[trigger] carried(
                        old(self).entries@,
                        outcomes,
                        revision,
                    )
                    &&& forall|k: int|
                        0 <= k < outcomes.len() ==> map.ensures(
                            (&old(self).entries@[k],),
                            Ok(#[trigger] outcomes[k]),
                        )
                },
            r matches Err(error) ==> *final(self) == *old(self),
            r matches Err(error) ==> exists|k: int|
                0 <= k < old(self).entries@.len() && fails_on(
                    map,
                    #[trigger] old(self).entries@[k],
                    error,
                ),
            r is Ok ==> final(self).stats == (ProjectionCacheStats {
                remapped: counted(old(self).stats.remapped, final(self).entries@.len() as int),
                invalidated: counted(
                    old(self).stats.invalidated,
                    old(self).entries@.len() - final(self).entries@.len(),
                ),
                ..old(self).stats
            }),
    {
        let ghost all = self.entries@;
        let ghost mut outcomes: Seq<Option<Remapped<P>>> = Seq::empty();
        let mut mapped: Vec<ProjectionEntry<P>> = Vec::new();
        let count = self.entries.len();
        let mut i: usize = 0;
        assert(all.take(0) =~= Seq::empty());
        while i < count
            invariant
                i <= count == all.len(),
                *self == *old(self),
                all == self.entries@,
                forall|k: int| 0 <= k < all.len() ==> #[trigger] map.requires((&all[k],)),
                outcomes.len() == i,
                forall|k: int|
                    0 <= k < i ==> map.ensures((&all[k],), Ok(#[trigger] outcomes[k])),
                mapped@ == carried(all.take(i as int), outcomes, revision),
                mapped@.len() <= i,
            decreases count - i,
        {
            assert(map.requires((&all[i as int],)));
            let outcome = match map(&self.entries[i]) {
                Ok(outcome) => outcome,
                Err(error) => {
                    assert(fails_on(map, old(self).entries@[i as int], error));
                    return Err(error);
                },
            };
            proof {
                let longer = outcomes.push(outcome);
                lemma_carried_outcomes(all.take(i as int), outcomes, longer, revision);
                outcomes = longer;
                assert(all.take(i + 1).drop_last() =~= all.take(i as int));
            }
            if let Some(found) = outcome {
                mapped.push(
                    ProjectionEntry {
                        key: self.entries[i].key.remapped(found.range),
                        revision,
                        projection: found.projection,
                    },
                );
            }
            i += 1;
        }
        assert(all.take(all.len() as int) =~= all);
        let carried_over = mapped.len();
        self.entries = mapped;
        self.stats.remapped = count_up(self.stats.remapped, carried_over);
        self.stats.invalidated = count_up(self.stats.invalidated, count - carried_over);
        Ok(())
    }

    /// Drops the entries of blocks that are not among `blocks`.
    pub fn retain_blocks(&mut self, blocks: &[BlockKey])
        ensures
            final(self).entries@ == entries_in(old(self).entries@, blocks@),
            final(self).stats == (ProjectionCacheStats {
                invalidated: counted(
                    old(self).stats.invalidated,
                    old(self).entries@.len() - final(self).entries@.len(),
                ),
                ..old(self).stats
            }),
    {
        let mut keep: Vec<bool> = Vec::new();
        let mut i: usize = 0;
        while i < self.entries.len()
            invariant
                i <= self.entries@.len(),
                *self == *old(self),
                keep@.len() == i,
                forall|k: int|
                    0 <= k < i ==> keep@[k] == still_there((#[trigger] self.entries@[k]).key, blocks@),
            decreases self.entries@.len() - i,
        {
            let stays = match self.entries[i].key {
                ProjectionKey::Range(_) => true,
                ProjectionKey::Block(block) => holds_block(blocks, block),
            };
            keep.push(stays);
            i += 1;
        }
        proof {
            let entries = self.entries@;
            assert(keep@ =~= Seq::new(
                entries.len(),
                |k: int| still_there(entries[k].key, blocks@),
            ));
        }
        let dropped = retain(&mut self.entries, &keep);
        self.stats.invalidated = count_up(self.stats.invalidated, dropped);
    }

    /// Drops everything.
    pub fn clear(&mut self)
        ensures
            final(self).entries@.len() == 0,
            final(self).stats == (ProjectionCacheStats {
                invalidated: counted(
                    old(self).stats.invalidated,
                    old(self).entries@.len() as int,
                ),
                ..old(self).stats
            }),
    {
        let dropped = self.entries.len();
        self.entries = Vec::new();
        self.stats.invalidated = count_up(self.stats.invalidated, dropped);
    }

    /// The counters.
    pub fn stats(&self) -> (r: ProjectionCacheStats)
        ensures
            r == (ProjectionCacheStats { entries: self.entries@.len() as usize, ..self.stats }),
    {
        ProjectionCacheStats { entries: self.entries.len(), ..self.stats }
    }

    /// The revision of what is kept.
    pub fn revision(&self) -> (r: Option<Revision>)
        ensures
            r == (if self.entries@.len() > 0 {
                Some(self.entries@[0].revision)
            } else {
                None
            }),
    {
        if self.entries.len() > 0 {
            Some(self.entries[0].revision)
        } else {
            None
        }
    }
}

/// Which entries are carried depends on their own outcomes alone.
proof fn lemma_carried_outcomes<P>(
    entries: Seq<ProjectionEntry<P>>,
    outcomes: Seq<Option<Remapped<P>>>,
    longer: Seq<Option<Remapped<P>>>,
    revision: Revision,
)
    requires
        entries.len() <= outcomes.len() <= longer.len(),
        forall|k: int| 0 <= k < entries.len() ==> outcomes[k] == longer[k],
    ensures
        carried(entries, outcomes, revision) == carried(entries, longer, revision),
    decreases entries.len(),
{
    if entries.len() > 0 {
        lemma_carried_outcomes(entries.drop_last(), outcomes, longer, revision);
    }
}

/// After a lookup every kept projection is of the revision that was asked for.
pub proof fn law_current_entries<P>(entries: Seq<ProjectionEntry<P>>, revision: Revision)
    ensures
        forall|i: int|
            0 <= i < current_entries(entries, revision).len() ==> (#[trigger] current_entries(
                entries,
                revision,
            )[i]).revision == revision,
        forall|k: int|
            0 <= k < entries.len() && (#[trigger] entries[k]).revision == revision
                ==> current_entries(entries, revision).contains(entries[k]),
{
    let keep = Seq::new(entries.len(), |k: int| entries[k].revision == revision);
    crate::cache::lemma_kept(entries, keep);
    assert forall|k: int|
        0 <= k < entries.len() && (
        #[trigger] entries[k]).revision == revision implies current_entries(
        entries,
        revision,
    ).contains(entries[k]) by {
        assert(keep[k]);
    }
}

/// An edit keeps the projections that have a place behind it, each under its own key over
/// the range where it is now and of the new revision, and drops the others: `k` is the number
/// of an entry.
pub proof fn law_projections_with_a_place_are_carried<P>(
    entries: Seq<ProjectionEntry<P>>,
    outcomes: Seq<Option<Remapped<P>>>,
    revision: Revision,
    k: int,
)
    requires
        0 <= k < entries.len() <= outcomes.len(),
    ensures
        carried(entries, outcomes, revision).len() <= entries.len(),
        outcomes[k] matches Some(mapped) ==> carried(entries, outcomes, revision).contains(
            ProjectionEntry {
                key: entries[k].key.spec_remapped(mapped.range),
                revision,
                projection: mapped.projection,
            },
        ),
        forall|m: int|
            0 <= m < carried(entries, outcomes, revision).len() ==> (#[trigger] carried(
                entries,
                outcomes,
                revision,
            )[m]).revision == revision,
        (forall|m: int| 0 <= m < entries.len() ==> (#[trigger] outcomes[m]) is None) ==> carried(
            entries,
            outcomes,
            revision,
        ).len() == 0,
    decreases entries.len(),
{
    let front = entries.drop_last();
    let before = carried(front, outcomes, revision);
    let all = carried(entries, outcomes, revision);
    let last = entries.len() - 1;
    if last > 0 {
        law_projections_with_a_place_are_carried(
            front,
            outcomes,
            revision,
            if k < last {
                k
            } else {
                0
            },
        );
    }
    assert forall|m: int| 0 <= m < all.len() implies (#[trigger] all[m]).revision == revision by {
        if m < before.len() {
            assert(all[m] == before[m]);
        }
    }
    match outcomes[k] {
        Some(mapped) => {
            let wanted = ProjectionEntry {
                key: entries[k].key.spec_remapped(mapped.range),
                revision,
                projection: mapped.projection,
            };
            if k < last {
                assert(front[k] == entries[k]);
                let m = choose|m: int| 0 <= m < before.len() && before[m] == wanted;
                assert(all[m] == wanted);
            } else {
                assert(all[before.len() as int] == wanted);
            }
        },
        None => {},
    }
    if forall|m: int| 0 <= m < entries.len() ==> (#[trigger] outcomes[m]) is None {
        assert(outcomes[last] is None);
    }
}

/// A lookup finds the first entry under the key, and finds none where there is none.
pub proof fn law_lookup_finds_the_first<P>(
    entries: Seq<ProjectionEntry<P>>,
    key: ProjectionKey,
    k: int,
)
    requires
        0 <= k < entries.len(),
    ensures
        0 <= entry_under(entries, key, 0) <= entries.len(),
        k < entry_under(entries, key, 0) ==> entries[k].key != key,
        k == entry_under(entries, key, 0) ==> entries[k].key == key,
{
    lemma_entry_under_first(entries, key, 0);
}

proof fn lemma_entry_under_first<P>(
    entries: Seq<ProjectionEntry<P>>,
    key: ProjectionKey,
    from: int,
)
    requires
        0 <= from <= entries.len(),
    ensures
        ({
            let at = entry_under(entries, key, from);
            &&& from <= at <= entries.len()
            &&& forall|k: int| from <= k < at ==> (#[trigger] entries[k]).key != key
            &&& at < entries.len() ==> entries[at].key == key
        }),
    decreases entries.len() - from,
{
    if from < entries.len() && entries[from].key != key {
        lemma_entry_under_first(entries, key, from + 1);
    }
}

} // verus!
