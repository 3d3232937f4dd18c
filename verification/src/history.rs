//! Bounded undo and redo history of inverse transactions.
use crate::edit::{AppliedTransaction, EditView, Transaction};
use crate::offset::Revision;
use vstd::prelude::*;

verus! {

/// How many steps a history keeps unless told otherwise.
pub const DEFAULT_HISTORY_LIMIT: usize = 512;

/// What kind of edit a step was. Neighbouring steps of one kind are undone
/// together.
#[derive(Clone, Copy, Debug, PartialEq, Eq, Structural)]
pub enum HistoryGroup {
    Typing,
    Deletion,
    ListEditing,
    TableEditing,
    Composition,
    External,
}

/// A transaction that undoes or redoes one step, with the group it belongs to.
#[derive(Debug)]
pub struct HistoryEntry {
    pub transaction: Transaction,
    pub group: u64,
}

/// What a [`HistoryEntry`] says.
pub struct EntryView {
    pub revision: Revision,
    pub edits: Seq<EditView>,
    pub group: u64,
}

impl View for HistoryEntry {
    type V = EntryView;

    open spec fn view(&self) -> EntryView {
        EntryView {
            revision: self.transaction.revision,
            edits: self.transaction.view_edits(),
            group: self.group,
        }
    }
}

impl HistoryEntry {
    /// A step of `group`.
    pub fn new(transaction: Transaction, group: u64) -> (r: HistoryEntry)
        ensures
            r.transaction == transaction,
            r.group == group,
    {
        HistoryEntry { transaction, group }
    }

    /// The step's transaction, addressed to `revision`.
    pub fn transaction_for(&self, revision: Revision) -> (r: Transaction)
        ensures
            r.revision == revision,
            r.view_edits() == self.transaction.view_edits(),
    {
        self.transaction.rebased(revision)
    }

    /// The step's group.
    pub fn group(&self) -> (r: u64)
        ensures
            r == self.group,
    {
        self.group
    }

    /// Another entry that says the same.
    pub fn duplicate(&self) -> (r: HistoryEntry)
        ensures
            r@ == self@,
    {
        HistoryEntry {
            transaction: self.transaction.rebased(self.transaction.revision),
            group: self.group,
        }
    }
}

/// The models of a list of entries.
pub open spec fn entry_views(entries: Seq<HistoryEntry>) -> Seq<EntryView> {
    entries.map_values(|e: HistoryEntry| e@)
}

/// How many entries at the start belong to `group`.
pub open spec fn leading_run(entries: Seq<EntryView>, group: u64) -> nat
    decreases entries.len(),
{
    if entries.len() > 0 && entries[0].group == group {
        1 + leading_run(entries.drop_first(), group)
    } else {
        0
    }
}

/// How many entries at the end belong to `group`.
pub open spec fn trailing_run(entries: Seq<EntryView>, group: u64) -> nat
    decreases entries.len(),
{
    if entries.len() > 0 && entries.last().group == group {
        1 + trailing_run(entries.drop_last(), group)
    } else {
        0
    }
}

/// The newest entries that fit the limit. Whole groups go away, oldest first.
pub open spec fn within_limit(limit: nat, entries: Seq<EntryView>) -> Seq<EntryView>
    decreases entries.len(),
    via within_limit_decreases
{
    if entries.len() <= limit {
        entries
    } else {
        within_limit(limit, entries.skip(leading_run(entries, entries[0].group) as int))
    }
}

#[via_fn]
proof fn within_limit_decreases(limit: nat, entries: Seq<EntryView>) {
    if entries.len() > limit {
        lemma_leading_run(entries, entries[0].group);
    }
}

/// The entries in the opposite order.
pub open spec fn backward(entries: Seq<EntryView>) -> Seq<EntryView> {
    Seq::new(entries.len(), |i: int| entries[entries.len() - 1 - i])
}

/// Whether the number of every entry's group is below `next`.
pub open spec fn groups_below(entries: Seq<EntryView>, next: u64) -> bool {
    forall|i: int| 0 <= i < entries.len() ==> (#[trigger] entries[i]).group < next
}

/// What can be undone and redone.
#[derive(Debug)]
pub struct EditorHistory {
    pub undo: Vec<HistoryEntry>,
    pub redo: Vec<HistoryEntry>,
    pub next_group: u64,
    pub open_group: Option<(HistoryGroup, u64)>,
    pub limit: usize,
}

/// What an [`EditorHistory`] says.
pub struct HistoryView {
    pub undo: Seq<EntryView>,
    pub redo: Seq<EntryView>,
    pub next_group: u64,
    pub open_group: Option<(HistoryGroup, u64)>,
    pub limit: usize,
}

impl View for EditorHistory {
    type V = HistoryView;

    open spec fn view(&self) -> HistoryView {
        HistoryView {
            undo: entry_views(self.undo@),
            redo: entry_views(self.redo@),
            next_group: self.next_group,
            open_group: self.open_group,
            limit: self.limit,
        }
    }
}

impl HistoryView {
    /// Whether neither side exceeds the limit.
    pub open spec fn wf(self) -> bool {
        self.undo.len() <= self.limit && self.redo.len() <= self.limit
    }

    /// Whether groups are counted up: every step, and the open group, has a number that
    /// was handed out before.
    pub open spec fn groups_counted(self) -> bool {
        &&& groups_below(self.undo, self.next_group)
        &&& groups_below(self.redo, self.next_group)
        &&& self.open_group matches Some((_, group)) ==> group < self.next_group
    }

    /// The group that a step of `kind` joins: the open one of the same kind, else
    /// a new one.
    pub open spec fn group_for(self, kind: HistoryGroup) -> u64 {
        match self.open_group {
            Some((open, group)) if open == kind => group,
            _ => self.next_group,
        }
    }
}

proof fn lemma_leading_run(entries: Seq<EntryView>, group: u64)
    ensures
        leading_run(entries, group) <= entries.len(),
    decreases entries.len(),
{
    if entries.len() > 0 && entries[0].group == group {
        lemma_leading_run(entries.drop_first(), group);
    }
}

proof fn lemma_trailing_run(entries: Seq<EntryView>, group: u64)
    ensures
        trailing_run(entries, group) <= entries.len(),
    decreases entries.len(),
{
    if entries.len() > 0 && entries.last().group == group {
        lemma_trailing_run(entries.drop_last(), group);
    }
}

/// A trimmed history fits the limit.
pub proof fn law_history_is_bounded(limit: nat, entries: Seq<EntryView>)
    ensures
        within_limit(limit, entries).len() <= limit,
    decreases entries.len(),
{
    if entries.len() > limit {
        lemma_leading_run(entries, entries[0].group);
        law_history_is_bounded(limit, entries.skip(leading_run(entries, entries[0].group) as int));
    }
}

/// Trimming keeps the newest entries as they are.
pub proof fn law_trimming_keeps_the_newest(limit: nat, entries: Seq<EntryView>)
    ensures
        within_limit(limit, entries).is_suffix_of(entries),
    decreases entries.len(),
{
    if entries.len() > limit {
        let run = leading_run(entries, entries[0].group) as int;
        lemma_leading_run(entries, entries[0].group);
        let rest = entries.skip(run);
        law_trimming_keeps_the_newest(limit, rest);
        let kept = within_limit(limit, rest);
        assert(kept =~= entries.subrange(entries.len() - kept.len(), entries.len() as int));
    }
}

/// What is left of entries whose groups are below `next` has groups below it.
proof fn lemma_trimmed_groups(limit: nat, entries: Seq<EntryView>, next: u64)
    requires
        groups_below(entries, next),
    ensures
        groups_below(within_limit(limit, entries), next),
{
    law_trimming_keeps_the_newest(limit, entries);
    let kept = within_limit(limit, entries);
    assert forall|i: int| 0 <= i < kept.len() implies (#[trigger] kept[i]).group < next by {
        assert(kept[i] == entries[entries.len() - kept.len() + i]);
    }
}

fn trim(limit: usize, entries: &mut Vec<HistoryEntry>)
    ensures
        entry_views(final(entries)@) == within_limit(limit as nat, entry_views(old(entries)@)),
        final(entries)@.len() <= limit,
{
    let ghost all = entry_views(entries@);
    while entries.len() > limit
        invariant
            within_limit(limit as nat, entry_views(entries@)) == within_limit(limit as nat, all),
        decreases entries@.len(),
    {
        let ghost views = entry_views(entries@);
        let oldest = entries[0].group;
        let mut run: usize = 0;
        assert(views.skip(0) =~= views);
        assert(views[0].group == oldest);
        while run < entries.len() && entries[run].group == oldest
            invariant
                views == entry_views(entries@),
                run <= entries@.len(),
                run + leading_run(views.skip(run as int), oldest) == leading_run(views, oldest),
            decreases entries@.len() - run,
        {
            assert(views.skip(run as int)[0] == entries@[run as int]@);
            assert(views.skip(run as int).drop_first() =~= views.skip(run + 1));
            run += 1;
        }
        proof {
            if run < entries@.len() {
                assert(views.skip(run as int)[0] == entries@[run as int]@);
            }
            assert(leading_run(views, oldest) == run);
            assert(run > 0);
        }
        let kept = entries.split_off(run);
        assert(entry_views(kept@) =~= views.skip(run as int));
        *entries = kept;
    }
}

impl Default for EditorHistory {
    fn default() -> (r: EditorHistory)
        ensures
            r@.undo.len() == 0,
            r@.redo.len() == 0,
            r@.next_group == 0,
            r@.open_group is None,
            r@.limit == DEFAULT_HISTORY_LIMIT,
            r@.wf(),
            r@.groups_counted(),
    {
        EditorHistory {
            undo: Vec::new(),
            redo: Vec::new(),
            next_group: 0,
            open_group: None,
            limit: DEFAULT_HISTORY_LIMIT,
        }
    }
}

impl EditorHistory {
    /// Records how to undo a step that was made. What could be redone is
    /// forgotten.
    pub fn record(&mut self, applied: &AppliedTransaction, kind: HistoryGroup)
        ensures
            ({
                let before = old(self)@;
                let group = before.group_for(kind);
                let entry = EntryView {
                    revision: applied.inverse.revision,
                    edits: applied.inverse.view_edits(),
                    group,
                };
                let after = final(self)@;
                &&& after.undo == within_limit(before.limit as nat, before.undo.push(entry))
                &&& after.undo.len() <= after.limit
                &&& after.redo.len() == 0
                &&& after.open_group == Some((kind, group))
                &&& after.next_group == (if before.open_group matches Some((open, _)) && open
                    == kind {
                    before.next_group as int
                } else if before.next_group < u64::MAX {
                    before.next_group + 1
                } else {
                    u64::MAX as int
                })
                &&& after.limit == before.limit
            }),
            old(self)@.groups_counted() && old(self)@.next_group < u64::MAX
                ==> final(self)@.groups_counted(),
    {
        let ghost before = self@;
        self.redo = Vec::new();
        let mut group: u64 = self.next_group;
        let mut joins = false;
        if let Some((open, number)) = self.open_group {
            if open == kind {
                group = number;
                joins = true;
            }
        }
        if !joins {
            self.next_group = self.next_group.saturating_add(1);
            self.open_group = Some((kind, group));
        }
        let transaction = applied.inverse.rebased(applied.inverse.revision);
        let entry = HistoryEntry::new(transaction, group);
        self.undo.push(entry);
        assert(entry_views(self.undo@) =~= before.undo.push(entry@));
        let limit = self.limit;
        trim(limit, &mut self.undo);
        proof {
            if before.groups_counted() && before.next_group < u64::MAX {
                lemma_trimmed_groups(
                    limit as nat,
                    before.undo.push(entry@),
                    self.next_group,
                );
            }
        }
    }

    /// Lets the next step start a new group.
    pub fn break_group(&mut self)
        ensures
            final(self)@ == (HistoryView { open_group: None, ..old(self)@ }),
            old(self)@.groups_counted() ==> final(self)@.groups_counted(),
    {
        self.open_group = None;
    }

    /// Forgets everything.
    pub fn clear(&mut self)
        ensures
            final(self)@.undo.len() == 0,
            final(self)@.redo.len() == 0,
            final(self)@.open_group is None,
            final(self)@.next_group == old(self)@.next_group,
            final(self)@.limit == old(self)@.limit,
            final(self)@.groups_counted(),
    {
        self.undo = Vec::new();
        self.redo = Vec::new();
        self.open_group = None;
    }

    /// How much can be undone and redone.
    pub fn stats(&self) -> (r: HistoryStats)
        ensures
            r.undo_entries == self@.undo.len(),
            r.redo_entries == self@.redo.len(),
            r.limit == self@.limit,
    {
        HistoryStats {
            undo_entries: self.undo.len(),
            redo_entries: self.redo.len(),
            limit: self.limit,
        }
    }

    /// Takes the newest group off the undo side, newest step first.
    pub fn pop_undo_group(&mut self) -> (r: Option<Vec<HistoryEntry>>)
        ensures
            ({
                let before = old(self)@;
                let after = final(self)@;
                match r {
                    None => before.undo.len() == 0 && after == before,
                    Some(entries) => {
                        let run = trailing_run(before.undo, before.undo.last().group) as int;
                        let kept = before.undo.len() - run;
                        &&& before.undo.len() > 0
                        &&& entry_views(entries@) == backward(before.undo.skip(kept))
                        &&& after == (HistoryView {
                            undo: before.undo.take(kept),
                            open_group: None,
                            ..before
                        })
                        &&& before.groups_counted() ==> groups_below(
                            entry_views(entries@),
                            before.next_group,
                        )
                    },
                }
            }),
            old(self)@.groups_counted() ==> final(self)@.groups_counted(),
    {
        let ghost before = self@;
        let entries = pop_group(&mut self.undo);
        if entries.is_some() {
            self.open_group = None;
            proof {
                let side = before.undo;
                lemma_trailing_run(side, side.last().group);
                let kept = side.len() - trailing_run(side, side.last().group);
                let popped = backward(side.skip(kept));
                assert forall|i: int| 0 <= i < popped.len() implies (#[trigger] popped[i]).group
                    == side[side.len() - 1 - i].group by {}
            }
        }
        entries
    }

    /// Takes the newest group off the redo side, newest step first.
    pub fn pop_redo_group(&mut self) -> (r: Option<Vec<HistoryEntry>>)
        ensures
            ({
                let before = old(self)@;
                let after = final(self)@;
                match r {
                    None => before.redo.len() == 0 && after == before,
                    Some(entries) => {
                        let run = trailing_run(before.redo, before.redo.last().group) as int;
                        let kept = before.redo.len() - run;
                        &&& before.redo.len() > 0
                        &&& entry_views(entries@) == backward(before.redo.skip(kept))
                        &&& after == (HistoryView {
                            redo: before.redo.take(kept),
                            open_group: None,
                            ..before
                        })
                        &&& before.groups_counted() ==> groups_below(
                            entry_views(entries@),
                            before.next_group,
                        )
                    },
                }
            }),
            old(self)@.groups_counted() ==> final(self)@.groups_counted(),
    {
        let ghost before = self@;
        let entries = pop_group(&mut self.redo);
        if entries.is_some() {
            self.open_group = None;
            proof {
                let side = before.redo;
                lemma_trailing_run(side, side.last().group);
                let kept = side.len() - trailing_run(side, side.last().group);
                let popped = backward(side.skip(kept));
                assert forall|i: int| 0 <= i < popped.len() implies (#[trigger] popped[i]).group
                    == side[side.len() - 1 - i].group by {}
            }
        }
        entries
    }

    /// Puts a popped group back on the undo side.
    pub fn restore_undo_group(&mut self, entries: &Vec<HistoryEntry>)
        ensures
            final(self)@ == (HistoryView {
                undo: within_limit(
                    old(self)@.limit as nat,
                    old(self)@.undo + backward(entry_views(entries@)),
                ),
                ..old(self)@
            }),
            final(self)@.undo.len() <= final(self)@.limit,
            old(self)@.groups_counted() && groups_below(
                entry_views(entries@),
                old(self)@.next_group,
            ) ==> final(self)@.groups_counted(),
    {
        let ghost before = self@;
        put_back(&mut self.undo, entries);
        let limit = self.limit;
        trim(limit, &mut self.undo);
        proof {
            if before.groups_counted() && groups_below(entry_views(entries@), before.next_group) {
                lemma_trimmed_groups(
                    limit as nat,
                    before.undo + backward(entry_views(entries@)),
                    before.next_group,
                );
            }
        }
    }

    /// Puts a popped group back on the redo side.
    pub fn restore_redo_group(&mut self, entries: &Vec<HistoryEntry>)
        ensures
            final(self)@ == (HistoryView {
                redo: within_limit(
                    old(self)@.limit as nat,
                    old(self)@.redo + backward(entry_views(entries@)),
                ),
                ..old(self)@
            }),
            final(self)@.redo.len() <= final(self)@.limit,
            old(self)@.groups_counted() && groups_below(
                entry_views(entries@),
                old(self)@.next_group,
            ) ==> final(self)@.groups_counted(),
    {
        let ghost before = self@;
        put_back(&mut self.redo, entries);
        let limit = self.limit;
        trim(limit, &mut self.redo);
        proof {
            if before.groups_counted() && groups_below(entry_views(entries@), before.next_group) {
                lemma_trimmed_groups(
                    limit as nat,
                    before.redo + backward(entry_views(entries@)),
                    before.next_group,
                );
            }
        }
    }

    /// Adds a group to the redo side.
    pub fn push_redo_group(&mut self, entries: Vec<HistoryEntry>)
        ensures
            final(self)@ == (HistoryView {
                redo: within_limit(
                    old(self)@.limit as nat,
                    old(self)@.redo + entry_views(entries@),
                ),
                ..old(self)@
            }),
            final(self)@.redo.len() <= final(self)@.limit,
            old(self)@.groups_counted() && groups_below(
                entry_views(entries@),
                old(self)@.next_group,
            ) ==> final(self)@.groups_counted(),
    {
        let ghost before = self@;
        let mut added = entries;
        self.redo.append(&mut added);
        assert(entry_views(self.redo@) =~= before.redo + entry_views(entries@));
        let limit = self.limit;
        trim(limit, &mut self.redo);
        proof {
            if before.groups_counted() && groups_below(entry_views(entries@), before.next_group) {
                lemma_trimmed_groups(
                    limit as nat,
                    before.redo + entry_views(entries@),
                    before.next_group,
                );
            }
        }
    }

    /// Adds a group to the undo side.
    pub fn push_undo_group(&mut self, entries: Vec<HistoryEntry>)
        ensures
            final(self)@ == (HistoryView {
                undo: within_limit(
                    old(self)@.limit as nat,
                    old(self)@.undo + entry_views(entries@),
                ),
                ..old(self)@
            }),
            final(self)@.undo.len() <= final(self)@.limit,
            old(self)@.groups_counted() && groups_below(
                entry_views(entries@),
                old(self)@.next_group,
            ) ==> final(self)@.groups_counted(),
    {
        let ghost before = self@;
        let mut added = entries;
        self.undo.append(&mut added);
        assert(entry_views(self.undo@) =~= before.undo + entry_views(entries@));
        let limit = self.limit;
        trim(limit, &mut self.undo);
        proof {
            if before.groups_counted() && groups_below(entry_views(entries@), before.next_group) {
                lemma_trimmed_groups(
                    limit as nat,
                    before.undo + entry_views(entries@),
                    before.next_group,
                );
            }
        }
    }
}

fn pop_group(side: &mut Vec<HistoryEntry>) -> (r: Option<Vec<HistoryEntry>>)
    ensures
        ({
            let before = entry_views(old(side)@);
            let after = entry_views(final(side)@);
            match r {
                None => before.len() == 0 && after == before,
                Some(entries) => {
                    let kept = before.len() - trailing_run(before, before.last().group);
                    &&& before.len() > 0
                    &&& entry_views(entries@) == backward(before.skip(kept))
                    &&& after == before.take(kept)
                },
            }
        }),
{
    let ghost all = entry_views(side@);
    if side.len() == 0 {
        return None;
    }
    let group = side[side.len() - 1].group;
    let mut entries: Vec<HistoryEntry> = Vec::new();
    proof {
        assert(all.last().group == group);
        assert(all.take(all.len() as int) =~= all);
        assert(all.skip(all.len() as int) =~= Seq::empty());
        assert(entry_views(entries@) =~= backward(all.skip(all.len() as int)));
    }
    while side.len() > 0 && side[side.len() - 1].group == group
        invariant
            side@.len() <= all.len(),
            entry_views(side@) == all.take(side@.len() as int),
            entry_views(entries@) == backward(all.skip(side@.len() as int)),
            (all.len() - side@.len()) + trailing_run(entry_views(side@), group) == trailing_run(
                all,
                group,
            ),
        decreases side@.len(),
    {
        let ghost before = side@;
        let ghost taken = entries@;
        assert(entry_views(before).last() == before.last()@);
        if let Some(entry) = side.pop() {
            entries.push(entry);
            proof {
                let n = side@.len() as int;
                assert(entry_views(side@) =~= entry_views(before).drop_last());
                assert(entry_views(side@) =~= all.take(n));
                assert(entry@ == all[n]) by {
                    assert(entry_views(before)[n] == all.take(n + 1)[n]);
                }
                assert(entry_views(entries@) =~= entry_views(taken).push(entry@));
                assert(entry_views(entries@) =~= backward(all.skip(n)));
            }
        }
    }
    proof {
        if side@.len() > 0 {
            assert(entry_views(side@).last() == side@.last()@);
        }
        assert(trailing_run(entry_views(side@), group) == 0);
    }
    Some(entries)
}

fn put_back(side: &mut Vec<HistoryEntry>, entries: &Vec<HistoryEntry>)
    ensures
        entry_views(final(side)@) == entry_views(old(side)@) + backward(entry_views(entries@)),
{
    let ghost before = entry_views(side@);
    let ghost all = entry_views(entries@);
    let mut i: usize = entries.len();
    assert(before + backward(all).take(0) =~= before);
    while i > 0
        invariant
            all == entry_views(entries@),
            i <= entries@.len(),
            entry_views(side@) == before + backward(all).take(all.len() - i),
        decreases i,
    {
        let ghost so_far = side@;
        let entry = entries[i - 1].duplicate();
        side.push(entry);
        i -= 1;
        proof {
            assert(entry_views(side@) =~= entry_views(so_far).push(entry@));
            assert(all[i as int] == entry@);
            assert(entry_views(side@) =~= before + backward(all).take(all.len() - i));
        }
    }
    assert(backward(all).take(all.len() as int) =~= backward(all));
}

/// Popping a group off the undo or the redo side and putting it back restores that side.
pub proof fn law_popped_group_is_restored(history: HistoryView)
    requires
        history.wf(),
    ensures
        history.undo.len() > 0 ==> comes_back(history.limit as nat, history.undo),
        history.redo.len() > 0 ==> comes_back(history.limit as nat, history.redo),
{
    if history.undo.len() > 0 {
        lemma_comes_back(history.limit as nat, history.undo);
    }
    if history.redo.len() > 0 {
        lemma_comes_back(history.limit as nat, history.redo);
    }
}

/// Whether a side is as it was once its newest group was popped and put back.
pub open spec fn comes_back(limit: nat, side: Seq<EntryView>) -> bool {
    let kept = side.len() - trailing_run(side, side.last().group);
    let popped = backward(side.skip(kept));
    within_limit(limit, side.take(kept) + backward(popped)) == side
}

proof fn lemma_comes_back(limit: nat, side: Seq<EntryView>)
    requires
        0 < side.len() <= limit,
    ensures
        comes_back(limit, side),
{
    lemma_trailing_run(side, side.last().group);
    let kept = side.len() - trailing_run(side, side.last().group);
    let popped = backward(side.skip(kept));
    assert(side.take(kept) + backward(popped) =~= side);
}

/// A popped group is one group: all of its steps belong to it, and the step
/// before it does not.
pub proof fn law_popped_group_is_whole(entries: Seq<EntryView>)
    requires
        entries.len() > 0,
    ensures
        ({
            let group = entries.last().group;
            let kept = entries.len() - trailing_run(entries, group);
            &&& 0 <= kept < entries.len()
            &&& forall|i: int|
                kept <= i < entries.len() ==> (#[trigger] entries[i]).group == group
            &&& kept > 0 ==> entries[kept - 1].group != group
        }),
{
    lemma_run_is_whole(entries, entries.last().group);
}

proof fn lemma_run_is_whole(entries: Seq<EntryView>, group: u64)
    ensures
        ({
            let kept = entries.len() - trailing_run(entries, group);
            &&& 0 <= kept <= entries.len()
            &&& forall|i: int|
                kept <= i < entries.len() ==> (#[trigger] entries[i]).group == group
            &&& kept > 0 ==> entries[kept - 1].group != group
        }),
    decreases entries.len(),
{
    if entries.len() > 0 && entries.last().group == group {
        let rest = entries.drop_last();
        lemma_run_is_whole(rest, group);
        let kept = entries.len() - trailing_run(entries, group);
        assert forall|i: int| kept <= i < entries.len() implies (#[trigger] entries[i]).group
            == group by {
            if i < rest.len() {
                assert(rest[i] == entries[i]);
            }
        }
        if kept > 0 {
            assert(rest[kept - 1] == entries[kept - 1]);
        }
    }
}

/// How much can be undone and redone, and how much is kept.
#[derive(Clone, Copy, Debug, PartialEq, Eq, Structural)]
pub struct HistoryStats {
    pub undo_entries: usize,
    pub redo_entries: usize,
    pub limit: usize,
}

impl HistoryStats {
    /// The number of steps that can be undone.
    pub fn undo_entries(self) -> (r: usize)
        ensures
            r == self.undo_entries,
    {
        self.undo_entries
    }

    /// The number of steps that can be redone.
    pub fn redo_entries(self) -> (r: usize)
        ensures
            r == self.redo_entries,
    {
        self.redo_entries
    }

    /// The number of steps that are kept on each side.
    pub fn limit(self) -> (r: usize)
        ensures
            r == self.limit,
    {
        self.limit
    }
}

} // verus!
